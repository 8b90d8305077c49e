//! The query grammar: a client-supplied string is expanded into an ordered
//! list of fragment keys.
//!
//! The query splits on `,` into fragments.  A fragment with a colon splits at
//! its last `:` into a parent and a pipe-delimited list of sub-names, each of
//! which yields the key `parent:sub`; a fragment without a colon is itself a
//! pipe-delimited list of keys.  An empty fragment contributes no keys.

use vstd::prelude::*;
use vstd::string::StrSliceExecFns;

verus! {

/// Index of the first occurrence of `sep` in `s` at or after position `i`,
/// or `s.len()` when there is none.
pub open spec fn find_from(s: Seq<char>, sep: char, i: int) -> int
    decreases s.len() - i
    when 0 <= i <= s.len()
{
    if i >= s.len() {
        s.len() as int
    } else if s[i] == sep {
        i
    } else {
        find_from(s, sep, i + 1)
    }
}

pub proof fn lemma_find_from(s: Seq<char>, sep: char, i: int)
    requires
        0 <= i <= s.len(),
    ensures
        i <= find_from(s, sep, i) <= s.len(),
        find_from(s, sep, i) < s.len() ==> s[find_from(s, sep, i)] == sep,
        forall|j: int| i <= j < find_from(s, sep, i) ==> s[j] != sep,
    decreases s.len() - i,
{
    if i < s.len() && s[i] != sep {
        lemma_find_from(s, sep, i + 1);
    }
}

/// The pieces of `s` between occurrences of `sep`, in order; `n` separators
/// give `n + 1` pieces, so the empty string gives one empty piece.
pub open spec fn split_chars(s: Seq<char>, sep: char) -> Seq<Seq<char>>
    decreases s.len()
    via split_chars_dec
{
    let j = find_from(s, sep, 0);
    if j == s.len() {
        seq![s]
    } else {
        seq![s.subrange(0, j)] + split_chars(s.subrange(j + 1, s.len() as int), sep)
    }
}

#[via_fn]
proof fn split_chars_dec(s: Seq<char>, sep: char) {
    lemma_find_from(s, sep, 0);
}

/// A key scoped under a parent group.
pub open spec fn scoped_key(parent: Seq<char>, sub: Seq<char>) -> Seq<char> {
    parent + seq![':'] + sub
}

/// Index of the last occurrence of `sep` in `s`, or `-1` when there is none.
pub open spec fn rfind(s: Seq<char>, sep: char) -> int
    decreases s.len(),
{
    if s.len() == 0 {
        -1
    } else if s[s.len() - 1] == sep {
        s.len() - 1
    } else {
        rfind(s.drop_last(), sep)
    }
}

pub proof fn lemma_rfind(s: Seq<char>, sep: char)
    ensures
        -1 <= rfind(s, sep) < s.len(),
        rfind(s, sep) >= 0 ==> s[rfind(s, sep)] == sep,
        forall|j: int| rfind(s, sep) < j < s.len() ==> s[j] != sep,
    decreases s.len(),
{
    if s.len() > 0 && s[s.len() - 1] != sep {
        lemma_rfind(s.drop_last(), sep);
        assert forall|j: int| rfind(s, sep) < j < s.len() implies s[j] != sep by {
            if j < s.len() - 1 {
                assert(s.drop_last()[j] == s[j]);
            }
        }
    }
}

/// The keys one query fragment contributes, in order.
pub open spec fn expand_fragment(f: Seq<char>) -> Seq<Seq<char>> {
    if f.len() == 0 {
        Seq::empty()
    } else {
        let j = rfind(f, ':');
        if j >= 0 {
            split_chars(f.subrange(j + 1, f.len() as int), '|').map_values(
                |sub: Seq<char>| scoped_key(f.subrange(0, j), sub),
            )
        } else {
            split_chars(f, '|')
        }
    }
}

/// The concatenation of the expansions of a list of fragments, in order.
pub open spec fn expand_all(frags: Seq<Seq<char>>) -> Seq<Seq<char>>
    decreases frags.len(),
{
    if frags.len() == 0 {
        Seq::empty()
    } else {
        expand_all(frags.drop_last()) + expand_fragment(frags.last())
    }
}

/// The full expansion of a query string into cache keys.
pub open spec fn expand_query(q: Seq<char>) -> Seq<Seq<char>> {
    expand_all(split_chars(q, ','))
}

/// First occurrence of `sep` in `s`, as an index; `s.len()` when absent.
fn find_first(s: &str, sep: char) -> (r: usize)
    ensures
        r == find_from(s@, sep, 0),
        r <= s@.len(),
{
    let n: usize = s.unicode_len();
    let mut i: usize = 0;
    while i < n
        invariant
            i <= n,
            n == s@.len(),
            find_from(s@, sep, 0) == find_from(s@, sep, i as int),
        decreases n - i,
    {
        if s.get_char(i) == sep {
            return i;
        }
        i = i + 1;
    }
    i
}

/// Last occurrence of `sep` in `s`, when there is one.
fn rfind_last(s: &str, sep: char) -> (r: Option<usize>)
    ensures
        match r {
            Some(i) => i == rfind(s@, sep) && i < s@.len(),
            None => rfind(s@, sep) == -1,
        },
{
    let n: usize = s.unicode_len();
    let mut i: usize = n;
    proof {
        assert(s@.subrange(0, i as int) =~= s@);
    }
    while i > 0
        invariant
            i <= n,
            n == s@.len(),
            rfind(s@, sep) == rfind(s@.subrange(0, i as int), sep),
        decreases i,
    {
        let ghost t = s@.subrange(0, i as int);
        i = i - 1;
        if s.get_char(i) == sep {
            proof {
                assert(t[t.len() - 1] == s@[i as int]);
            }
            return Some(i);
        }
        proof {
            assert(t[t.len() - 1] == s@[i as int]);
            assert(t.drop_last() =~= s@.subrange(0, i as int));
        }
    }
    proof {
        assert(s@.subrange(0, 0).len() == 0);
    }
    None
}

/// Splits `s` on `sep`, keeping empty pieces, as `str::split` does.
fn split_str(s: &str, sep: char) -> (r: Vec<String>)
    ensures
        r.deep_view() == split_chars(s@, sep),
{
    let mut parts: Vec<String> = Vec::new();
    let mut rest: &str = s;
    loop
        invariant_except_break
            parts.deep_view() + split_chars(rest@, sep) == split_chars(s@, sep),
        ensures
            parts.deep_view() == split_chars(s@, sep),
        decreases rest@.len(),
    {
        let n: usize = rest.unicode_len();
        let j: usize = find_first(rest, sep);
        let ghost prev = parts.deep_view();
        if j == n {
            parts.push(rest.to_owned());
            proof {
                assert(split_chars(rest@, sep) =~= seq![rest@]);
                assert(parts.deep_view() =~= prev.push(rest@));
                assert(parts.deep_view() =~= prev + seq![rest@]);
            }
            break;
        }
        let piece: &str = rest.substring_char(0, j);
        let tail: &str = rest.substring_char(j + 1, n);
        parts.push(piece.to_owned());
        proof {
            assert(split_chars(rest@, sep) == seq![rest@.subrange(0, j as int)] + split_chars(
                rest@.subrange(j as int + 1, rest@.len() as int),
                sep,
            ));
            assert(parts.deep_view() =~= prev.push(piece@));
            assert(parts.deep_view() + split_chars(tail@, sep) =~= prev + split_chars(rest@, sep));
        }
        rest = tail;
    }
    parts
}

/// Appends the keys of one fragment to `out`, in order.
fn expand_fragment_into(f: &str, out: &mut Vec<String>)
    ensures
        final(out).deep_view() == old(out).deep_view() + expand_fragment(f@),
{
    let n: usize = f.unicode_len();
    if n == 0 {
        proof {
            assert(out.deep_view() =~= out.deep_view() + expand_fragment(f@));
        }
        return ;
    }
    match rfind_last(f, ':') {
        Some(j) => {
            let parent: &str = f.substring_char(0, j);
            let subs_str: &str = f.substring_char(j + 1, n);
            let subs: Vec<String> = split_str(subs_str, '|');
            let ghost mapped = split_chars(subs_str@, '|').map_values(
                |sub: Seq<char>| scoped_key(f@.subrange(0, j as int), sub),
            );
            proof {
                assert(expand_fragment(f@) == mapped);
            }
            let mut si: usize = 0;
            while si < subs.len()
                invariant
                    si <= subs.len(),
                    subs.deep_view() == split_chars(subs_str@, '|'),
                    parent@ == f@.subrange(0, j as int),
                    mapped == split_chars(subs_str@, '|').map_values(
                        |sub: Seq<char>| scoped_key(f@.subrange(0, j as int), sub),
                    ),
                    out.deep_view() == old(out).deep_view() + mapped.take(si as int),
                decreases subs.len() - si,
            {
                let key: String = parent.to_owned().concat(":").concat(subs[si].as_str());
                let ghost prev = out.deep_view();
                proof {
                    reveal_strlit(":");
                    assert(":"@ =~= seq![':']);
                    assert(key@ =~= scoped_key(f@.subrange(0, j as int), subs.deep_view()[si as int]));
                }
                out.push(key);
                proof {
                    assert(out.deep_view() =~= prev.push(mapped[si as int]));
                    assert(out.deep_view() =~= old(out).deep_view() + mapped.take(si as int + 1));
                }
                si = si + 1;
            }
            proof {
                assert(mapped.take(subs.deep_view().len() as int) =~= mapped);
            }
        },
        None => {
            let names: Vec<String> = split_str(f, '|');
            proof {
                assert(expand_fragment(f@) == split_chars(f@, '|'));
            }
            let mut ni: usize = 0;
            while ni < names.len()
                invariant
                    ni <= names.len(),
                    names.deep_view() == split_chars(f@, '|'),
                    out.deep_view() == old(out).deep_view() + names.deep_view().take(ni as int),
                decreases names.len() - ni,
            {
                let name: String = names[ni].clone();
                let ghost prev = out.deep_view();
                out.push(name);
                proof {
                    assert(out.deep_view() =~= prev.push(names.deep_view()[ni as int]));
                    assert(out.deep_view() =~= old(out).deep_view() + names.deep_view().take(
                        ni as int + 1,
                    ));
                }
                ni = ni + 1;
            }
            proof {
                assert(names.deep_view().take(names.deep_view().len() as int) =~= names.deep_view());
            }
        },
    }
}

/// Expands a query string into the ordered list of cache keys it names.
pub fn query_to_paths(components: String) -> (r: Vec<String>)
    ensures
        r.deep_view() == expand_query(components@),
{
    let mut files: Vec<String> = Vec::new();
    let fragments: Vec<String> = split_str(components.as_str(), ',');
    let mut fi: usize = 0;
    while fi < fragments.len()
        invariant
            fi <= fragments.len(),
            fragments.deep_view() == split_chars(components@, ','),
            files.deep_view() == expand_all(fragments.deep_view().take(fi as int)),
        decreases fragments.len() - fi,
    {
        let ghost frag_views = fragments.deep_view();
        expand_fragment_into(fragments[fi].as_str(), &mut files);
        proof {
            assert(frag_views.take(fi as int + 1).drop_last() =~= frag_views.take(fi as int));
            assert(frag_views.take(fi as int + 1).last() == frag_views[fi as int]);
        }
        fi = fi + 1;
    }
    proof {
        assert(fragments.deep_view().take(fragments.deep_view().len() as int) =~= fragments.deep_view());
    }
    files
}

} // verus!
