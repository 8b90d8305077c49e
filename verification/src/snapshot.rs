//! A snapshot: the complete key-to-content mapping produced by one
//! compilation run.
//!
//! Entries are kept strictly sorted by key, so keys are unique and
//! enumeration is canonical (lexicographic).  A snapshot is immutable to
//! readers; the store replaces it wholesale.

use vstd::prelude::*;
use vstd::string::StrSliceExecFns;

verus! {

/// Strict lexicographic order on character sequences, by scalar value.
pub open spec fn lex_lt(a: Seq<char>, b: Seq<char>) -> bool
    decreases a.len(),
{
    if b.len() == 0 {
        false
    } else if a.len() == 0 {
        true
    } else if a[0] != b[0] {
        (a[0] as u32) < (b[0] as u32)
    } else {
        lex_lt(a.drop_first(), b.drop_first())
    }
}

pub proof fn lemma_lex_lt_irrefl(a: Seq<char>)
    ensures
        !lex_lt(a, a),
    decreases a.len(),
{
    if a.len() > 0 {
        lemma_lex_lt_irrefl(a.drop_first());
    }
}

pub proof fn lemma_lex_lt_connected(a: Seq<char>, b: Seq<char>)
    requires
        !lex_lt(a, b),
        !lex_lt(b, a),
    ensures
        a == b,
    decreases a.len(),
{
    if a.len() == 0 || b.len() == 0 {
        assert(a =~= b);
    } else if a[0] == b[0] {
        lemma_lex_lt_connected(a.drop_first(), b.drop_first());
        assert(a =~= seq![a[0]] + a.drop_first());
        assert(b =~= seq![b[0]] + b.drop_first());
    } else {
        assert((a[0] as u32) == (b[0] as u32));
        vstd::utf8::char_u32_cast(a[0], a[0] as u32);
        vstd::utf8::char_u32_cast(b[0], b[0] as u32);
    }
}

pub proof fn lemma_lex_lt_trans(a: Seq<char>, b: Seq<char>, c: Seq<char>)
    requires
        lex_lt(a, b),
        lex_lt(b, c),
    ensures
        lex_lt(a, c),
    decreases a.len(),
{
    if a.len() > 0 && b.len() > 0 && c.len() > 0 {
        if a[0] == b[0] && b[0] == c[0] {
            lemma_lex_lt_trans(a.drop_first(), b.drop_first(), c.drop_first());
        }
    }
}

/// Whether `a` comes strictly before `b` in the canonical key order.
pub fn str_lt(a: &str, b: &str) -> (r: bool)
    ensures
        r == lex_lt(a@, b@),
{
    let an: usize = a.unicode_len();
    let bn: usize = b.unicode_len();
    let mut i: usize = 0;
    proof {
        assert(a@.skip(0) =~= a@);
        assert(b@.skip(0) =~= b@);
    }
    loop
        invariant
            i <= an,
            i <= bn,
            an == a@.len(),
            bn == b@.len(),
            lex_lt(a@, b@) == lex_lt(a@.skip(i as int), b@.skip(i as int)),
        decreases an - i,
    {
        if i >= bn {
            return false;
        }
        if i >= an {
            return true;
        }
        let ca: char = a.get_char(i);
        let cb: char = b.get_char(i);
        proof {
            assert(a@.skip(i as int)[0] == a@[i as int]);
            assert(b@.skip(i as int)[0] == b@[i as int]);
        }
        if ca != cb {
            return (ca as u32) < (cb as u32);
        }
        proof {
            assert(a@.skip(i as int).drop_first() =~= a@.skip(i as int + 1));
            assert(b@.skip(i as int).drop_first() =~= b@.skip(i as int + 1));
        }
        i = i + 1;
    }
}

/// First-match lookup in a sequence of key/content pairs.
pub open spec fn seq_get(s: Seq<(Seq<char>, Seq<char>)>, k: Seq<char>) -> Option<Seq<char>>
    decreases s.len(),
{
    if s.len() == 0 {
        None
    } else if s[0].0 == k {
        Some(s[0].1)
    } else {
        seq_get(s.drop_first(), k)
    }
}

pub proof fn lemma_seq_get_append(s1: Seq<(Seq<char>, Seq<char>)>, s2: Seq<(Seq<char>, Seq<char>)>, k: Seq<char>)
    ensures
        seq_get(s1 + s2, k) == match seq_get(s1, k) {
            Some(v) => Some(v),
            None => seq_get(s2, k),
        },
    decreases s1.len(),
{
    if s1.len() == 0 {
        assert(s1 + s2 =~= s2);
    } else {
        assert((s1 + s2)[0] == s1[0]);
        assert((s1 + s2).len() > 0);
        if s1[0].0 != k {
            assert((s1 + s2).drop_first() =~= s1.drop_first() + s2);
            lemma_seq_get_append(s1.drop_first(), s2, k);
        }
    }
}

pub proof fn lemma_seq_get_found(s: Seq<(Seq<char>, Seq<char>)>, k: Seq<char>)
    ensures
        (seq_get(s, k) is Some) <==> (exists|i: int| 0 <= i < s.len() && s[i].0 == k),
    decreases s.len(),
{
    if s.len() > 0 && s[0].0 != k {
        lemma_seq_get_found(s.drop_first(), k);
        if seq_get(s, k) is Some {
            let i = choose|i: int| 0 <= i < s.drop_first().len() && s.drop_first()[i].0 == k;
            assert(s[i + 1].0 == k);
        }
        if exists|i: int| 0 <= i < s.len() && s[i].0 == k {
            let i = choose|i: int| 0 <= i < s.len() && s[i].0 == k;
            assert(s.drop_first()[i - 1].0 == k);
        }
    }
}

/// The views of a list of key/content pairs.
pub open spec fn pairs_view(pairs: Seq<(String, String)>) -> Seq<(Seq<char>, Seq<char>)> {
    pairs.map_values(|p: (String, String)| (p.0@, p.1@))
}

/// Last-match lookup in a list of key/content pairs: a later pair for the
/// same key overrides an earlier one, as repeated map insertion would.
pub open spec fn pairs_get_last(pairs: Seq<(Seq<char>, Seq<char>)>, k: Seq<char>) -> Option<Seq<char>>
    decreases pairs.len(),
{
    if pairs.len() == 0 {
        None
    } else if pairs.last().0 == k {
        Some(pairs.last().1)
    } else {
        pairs_get_last(pairs.drop_last(), k)
    }
}

/// A complete, internally consistent mapping from fragment key to compiled
/// content, as of one compilation run.
#[derive(Clone)]
pub struct Snapshot {
    entries: Vec<(String, String)>,
}

impl Snapshot {
    /// The entries, as views, in storage order.
    pub closed spec fn entries_view(self) -> Seq<(Seq<char>, Seq<char>)> {
        pairs_view(self.entries@)
    }

    /// The keys, in storage order.
    pub open spec fn key_seq(self) -> Seq<Seq<char>> {
        self.entries_view().map_values(|p: (Seq<char>, Seq<char>)| p.0)
    }

    /// Entries are strictly sorted by key, so keys are unique and
    /// enumeration is canonical.
    pub open spec fn wf(self) -> bool {
        forall|i: int, j: int|
            0 <= i < j < self.key_seq().len() ==> lex_lt(self.key_seq()[i], self.key_seq()[j])
    }

    /// The content stored under `k`, when `k` is known.
    pub open spec fn spec_get(self, k: Seq<char>) -> Option<Seq<char>> {
        seq_get(self.entries_view(), k)
    }

    /// Whether the snapshot knows the key `k`.
    pub open spec fn contains_key(self, k: Seq<char>) -> bool {
        self.spec_get(k) is Some
    }

    /// The empty snapshot, which a store holds before the first compile.
    pub fn new() -> (r: Snapshot)
        ensures
            r.wf(),
            forall|k: Seq<char>| r.spec_get(k) is None,
            r.key_seq() =~= Seq::<Seq<char>>::empty(),
    {
        let r = Snapshot { entries: Vec::new() };
        proof {
            assert(r.entries_view() =~= Seq::<(Seq<char>, Seq<char>)>::empty());
        }
        r
    }

    /// Inserts one key/content pair, keeping entries sorted; an existing
    /// entry for the same key is overridden.
    pub fn insert(&mut self, key: String, value: String)
        requires
            old(self).wf(),
        ensures
            final(self).wf(),
            final(self).spec_get(key@) == Some(value@),
            forall|k: Seq<char>| k != key@ ==> final(self).spec_get(k) == old(self).spec_get(k),
            final(self).contains_key(key@),
    {
        let ghost old_view = self.entries_view();
        let n: usize = self.entries.len();
        let mut out: Vec<(String, String)> = Vec::new();
        let mut i: usize = 0;
        while i < n
            invariant
                i <= n,
                n == self.entries.len(),
                *self == *old(self),
                out@.len() == i as int,
                pairs_view(out@) =~= old(self).entries_view().take(i as int),
                forall|j: int| 0 <= j < i ==> lex_lt(old(self).entries_view()[j].0, key@),
            ensures
                i <= n,
                i == n || !lex_lt(old(self).entries_view()[i as int].0, key@),
            decreases n - i,
        {
            if !str_lt(self.entries[i].0.as_str(), key.as_str()) {
                break;
            }
            let e0: String = self.entries[i].0.clone();
            let e1: String = self.entries[i].1.clone();
            let ghost prev_out = out@;
            out.push((e0, e1));
            proof {
                assert(out@ == prev_out.push((e0, e1)));
                assert(e0@ == old(self).entries@[i as int].0@);
                assert(e1@ == old(self).entries@[i as int].1@);
                assert(old(self).entries_view()[i as int] == (
                    old(self).entries@[i as int].0@,
                    old(self).entries@[i as int].1@,
                ));
                assert(pairs_view(out@).len() == i as int + 1);
                assert(pairs_view(out@)[i as int] == (e0@, e1@));
                assert forall|t: int| 0 <= t < i as int implies pairs_view(out@)[t] == pairs_view(
                    prev_out,
                )[t] by {
                    assert(out@[t] == prev_out[t]);
                }
                assert(pairs_view(out@) =~= old(self).entries_view().take(i as int + 1));
            }
            i = i + 1;
        }
        let ghost cut = i as int;
        proof {
            assert(pairs_view(out@) =~= old_view.take(cut));
        }
        out.push((key.clone(), value.clone()));
        let mut i2: usize = i;
        // Skip an existing entry with the same key, so the new pair overrides it.
        if i2 < n && !str_lt(key.as_str(), self.entries[i2].0.as_str()) {
            proof {
                lemma_lex_lt_connected(old_view[i2 as int].0, key@);
            }
            i2 = i2 + 1;
        }
        let ghost skip_from = i2 as int;
        proof {
            assert(pairs_view(out@) =~= old_view.take(cut) + seq![(key@, value@)]
                + old_view.subrange(skip_from, skip_from));
        }
        while i2 < n
            invariant
                0 <= cut <= skip_from <= i2 as int <= n,
                n == self.entries.len(),
                *self == *old(self),
                old_view == old(self).entries_view(),
                old_view.len() == n as int,
                out@.len() == cut + 1 + (i2 as int - skip_from),
                pairs_view(out@) =~= old_view.take(cut) + seq![(key@, value@)] + old_view.subrange(
                    skip_from,
                    i2 as int,
                ),
            decreases n - i2,
        {
            let e0: String = self.entries[i2].0.clone();
            let e1: String = self.entries[i2].1.clone();
            let ghost prev_out = out@;
            out.push((e0, e1));
            proof {
                assert(out@ == prev_out.push((e0, e1)));
                assert(old_view[i2 as int] == (
                    old(self).entries@[i2 as int].0@,
                    old(self).entries@[i2 as int].1@,
                ));
                assert forall|t: int| 0 <= t < prev_out.len() implies pairs_view(out@)[t]
                    == pairs_view(prev_out)[t] by {
                    assert(out@[t] == prev_out[t]);
                }
                assert(pairs_view(out@)[prev_out.len() as int] == (e0@, e1@));
                let rhs = old_view.take(cut) + seq![(key@, value@)] + old_view.subrange(
                    skip_from,
                    i2 as int + 1,
                );
                let prev_rhs = old_view.take(cut) + seq![(key@, value@)] + old_view.subrange(
                    skip_from,
                    i2 as int,
                );
                assert(pairs_view(out@).len() == rhs.len());
                assert forall|t: int| 0 <= t < rhs.len() implies pairs_view(out@)[t] == rhs[t] by {
                    if t < prev_out.len() {
                        assert(pairs_view(out@)[t] == pairs_view(prev_out)[t]);
                        assert(pairs_view(prev_out)[t] == prev_rhs[t]);
                        if t >= cut + 1 {
                            assert(prev_rhs[t] == old_view.subrange(skip_from, i2 as int)[t - cut
                                - 1]);
                            assert(rhs[t] == old_view.subrange(skip_from, i2 as int + 1)[t - cut
                                - 1]);
                            assert(old_view.subrange(skip_from, i2 as int)[t - cut - 1]
                                == old_view[skip_from + t - cut - 1]);
                            assert(old_view.subrange(skip_from, i2 as int + 1)[t - cut - 1]
                                == old_view[skip_from + t - cut - 1]);
                        }
                    } else {
                        assert(pairs_view(out@)[t] == (e0@, e1@));
                        assert(rhs[t] == old_view.subrange(skip_from, i2 as int + 1)[t - cut - 1]);
                        assert(rhs[t] == old_view[i2 as int]);
                    }
                }
                assert(pairs_view(out@) =~= rhs);
            }
            i2 = i2 + 1;
        }
        self.entries = out;
        proof {
            let prefix = old_view.take(cut);
            let suffix = old_view.subrange(skip_from, n as int);
            assert(self.entries_view() =~= prefix + seq![(key@, value@)] + suffix);
            self.lemma_insert_shape(*old(self), key@, value@, cut, skip_from);
        }
    }

    /// The rebuilt entry list `prefix + [(key, value)] + suffix` is sorted
    /// and looks up as the old list with `key` overridden.
    proof fn lemma_insert_shape(
        self,
        prev: Snapshot,
        key: Seq<char>,
        value: Seq<char>,
        cut: int,
        skip_from: int,
    )
        requires
            prev.wf(),
            0 <= cut <= skip_from <= prev.entries_view().len(),
            skip_from <= cut + 1,
            self.entries_view() =~= prev.entries_view().take(cut) + seq![(key, value)]
                + prev.entries_view().subrange(skip_from, prev.entries_view().len() as int),
            forall|j: int| 0 <= j < cut ==> lex_lt(prev.entries_view()[j].0, key),
            cut < prev.entries_view().len() && skip_from == cut ==> lex_lt(
                key,
                prev.entries_view()[cut].0,
            ),
            skip_from == cut + 1 ==> prev.entries_view()[cut].0 == key,
        ensures
            self.wf(),
            self.spec_get(key) == Some(value),
            forall|k: Seq<char>| k != key ==> self.spec_get(k) == prev.spec_get(k),
            self.contains_key(key),
    {
        let old_view = prev.entries_view();
        let n = old_view.len() as int;
        let prefix = old_view.take(cut);
        let suffix = old_view.subrange(skip_from, n);
        let new_view = self.entries_view();

        // Every key before the cut is below `key`; every key from `skip_from`
        // on is above it.
        assert forall|j: int| skip_from <= j < n implies lex_lt(key, old_view[j].0) by {
            assert(prev.key_seq()[j] == old_view[j].0);
            assert(prev.key_seq()[cut] == old_view[cut].0);
            if skip_from == cut {
                // The entry at the cut is above `key`, and later ones above it.
                if j > cut {
                    lemma_lex_lt_trans(key, old_view[cut].0, old_view[j].0);
                }
            } else {
                // The entry at the cut carried `key` itself and was dropped;
                // sortedness places every remaining suffix key above it.
                assert(old_view[cut].0 == key);
                assert(lex_lt(old_view[cut].0, old_view[j].0));
            }
        }

        // Sorted: compare any two positions of the new list.
        assert forall|i: int, j: int|
            0 <= i < j < self.key_seq().len() implies lex_lt(self.key_seq()[i], self.key_seq()[j]) by {
            assert(self.key_seq()[i] == new_view[i].0);
            assert(self.key_seq()[j] == new_view[j].0);
            let ki = new_view[i].0;
            let kj = new_view[j].0;
            if i < cut {
                assert(ki == old_view[i].0);
                assert(prev.key_seq()[i] == old_view[i].0);
                if j < cut {
                    assert(kj == old_view[j].0);
                    assert(prev.key_seq()[j] == old_view[j].0);
                } else if j == cut {
                    assert(kj == key);
                } else {
                    let j0 = j - cut - 1 + skip_from;
                    assert(kj == old_view[j0].0);
                    assert(prev.key_seq()[j0] == old_view[j0].0);
                    lemma_lex_lt_trans(ki, key, kj);
                }
            } else if i == cut {
                assert(ki == key);
                let j0 = j - cut - 1 + skip_from;
                assert(kj == old_view[j0].0);
            } else {
                let i0 = i - cut - 1 + skip_from;
                let j0 = j - cut - 1 + skip_from;
                assert(ki == old_view[i0].0);
                assert(kj == old_view[j0].0);
                assert(prev.key_seq()[i0] == old_view[i0].0);
                assert(prev.key_seq()[j0] == old_view[j0].0);
            }
        }

        // No prefix key equals `key`, so lookup of `key` reaches the new pair.
        assert forall|j: int| 0 <= j < prefix.len() implies prefix[j].0 != key by {
            if prefix[j].0 == key {
                lemma_lex_lt_irrefl(key);
            }
        }
        lemma_seq_get_append(prefix + seq![(key, value)], suffix, key);
        lemma_seq_get_append(prefix, seq![(key, value)], key);
        lemma_seq_get_none(prefix, key);
        lemma_seq_get_single((key, value), key);
        assert((prefix + seq![(key, value)] + suffix) =~= new_view);

        // Any other key looks up as before.
        assert forall|k: Seq<char>| k != key implies self.spec_get(k) == prev.spec_get(k) by {
            lemma_seq_get_append(prefix + seq![(key, value)], suffix, k);
            lemma_seq_get_append(prefix, seq![(key, value)], k);
            lemma_seq_get_single((key, value), k);
            let mid = old_view.subrange(cut, skip_from);
            assert(old_view =~= prefix + mid + old_view.subrange(skip_from, n));
            lemma_seq_get_append(prefix + mid, suffix, k);
            lemma_seq_get_append(prefix, mid, k);
            if skip_from == cut + 1 {
                assert(mid =~= seq![old_view[cut]]);
                lemma_seq_get_single(old_view[cut], k);
                assert(seq_get(mid, k) is None);
            } else {
                assert(mid =~= Seq::<(Seq<char>, Seq<char>)>::empty());
                assert(seq_get(mid, k) is None);
            }
            assert((prefix + mid + suffix) =~= prev.entries_view());
        }
    }

    /// Builds a snapshot from the key/content pairs one compilation run
    /// produced; a later pair for the same key overrides an earlier one.
    pub fn from_pairs(pairs: Vec<(String, String)>) -> (r: Snapshot)
        ensures
            r.wf(),
            forall|k: Seq<char>| r.spec_get(k) == pairs_get_last(pairs_view(pairs@), k),
    {
        let mut snap = Snapshot::new();
        let ghost pv = pairs_view(pairs@);
        let mut i: usize = 0;
        proof {
            assert(pv.take(0) =~= Seq::<(Seq<char>, Seq<char>)>::empty());
        }
        while i < pairs.len()
            invariant
                i <= pairs.len(),
                pv == pairs_view(pairs@),
                snap.wf(),
                forall|k: Seq<char>| snap.spec_get(k) == pairs_get_last(pv.take(i as int), k),
            decreases pairs.len() - i,
        {
            let key: String = pairs[i].0.clone();
            let value: String = pairs[i].1.clone();
            let ghost before = snap;
            snap.insert(key, value);
            proof {
                assert forall|k: Seq<char>|
                    snap.spec_get(k) == pairs_get_last(pv.take(i as int + 1), k) by {
                    assert(pv.take(i as int + 1).last() == pv[i as int]);
                    assert(pv[i as int].0 == pairs@[i as int].0@);
                    assert(pv.take(i as int + 1).drop_last() =~= pv.take(i as int));
                }
            }
            i = i + 1;
        }
        proof {
            assert(pv.take(pairs@.len() as int) =~= pv);
        }
        snap
    }

    /// Looks the key up; `None` when the snapshot does not know it.
    pub fn get<'a>(&'a self, key: &String) -> (r: Option<&'a String>)
        ensures
            match r {
                Some(v) => self.spec_get(key@) == Some(v@),
                None => self.spec_get(key@) is None,
            },
    {
        let n: usize = self.entries.len();
        let mut i: usize = 0;
        proof {
            assert(self.entries_view().skip(0) =~= self.entries_view());
        }
        while i < n
            invariant
                i <= n,
                n == self.entries.len(),
                seq_get(self.entries_view(), key@) == seq_get(
                    self.entries_view().skip(i as int),
                    key@,
                ),
            decreases n - i,
        {
            proof {
                assert(self.entries_view().skip(i as int)[0] == self.entries_view()[i as int]);
            }
            if self.entries[i].0 == *key {
                return Some(&self.entries[i].1);
            }
            proof {
                assert(self.entries_view().skip(i as int).drop_first() =~= self.entries_view().skip(
                    i as int + 1,
                ));
            }
            i = i + 1;
        }
        None
    }

    /// All known keys, in canonical (lexicographically sorted) order.
    pub fn keys(&self) -> (r: Vec<String>)
        ensures
            r.deep_view() == self.key_seq(),
    {
        let n: usize = self.entries.len();
        let mut out: Vec<String> = Vec::new();
        let mut i: usize = 0;
        while i < n
            invariant
                i <= n,
                n == self.entries.len(),
                out.deep_view() =~= self.key_seq().take(i as int),
            decreases n - i,
        {
            let ghost prev = out.deep_view();
            out.push(self.entries[i].0.clone());
            proof {
                assert(self.key_seq()[i as int] == self.entries_view()[i as int].0);
                assert(out.deep_view() =~= prev.push(self.key_seq()[i as int]));
                assert(out.deep_view() =~= self.key_seq().take(i as int + 1));
            }
            i = i + 1;
        }
        proof {
            assert(self.key_seq().take(n as int) =~= self.key_seq());
        }
        out
    }
}

/// Lookup in a one-entry list.
pub proof fn lemma_seq_get_single(p: (Seq<char>, Seq<char>), k: Seq<char>)
    ensures
        seq_get(seq![p], k) == if p.0 == k {
            Some(p.1)
        } else {
            None::<Seq<char>>
        },
{
    let s = seq![p];
    assert(s.len() == 1);
    assert(s[0] == p);
    if p.0 != k {
        assert(s.drop_first() =~= Seq::<(Seq<char>, Seq<char>)>::empty());
        assert(seq_get(s.drop_first(), k) is None);
    }
}

/// Lookup misses when no entry carries the key.
pub proof fn lemma_seq_get_none(s: Seq<(Seq<char>, Seq<char>)>, k: Seq<char>)
    requires
        forall|j: int| 0 <= j < s.len() ==> s[j].0 != k,
    ensures
        seq_get(s, k) is None,
    decreases s.len(),
{
    if s.len() > 0 {
        assert forall|j: int| 0 <= j < s.drop_first().len() implies s.drop_first()[j].0 != k by {
            assert(s.drop_first()[j] == s[j + 1]);
        }
        lemma_seq_get_none(s.drop_first(), k);
    }
}

} // verus!
