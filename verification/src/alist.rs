//! Specification-level view of association lists: sequences of
//! `(Vec<char>, V)` entries keyed by the character sequence of the first
//! component. The index structures store their tables this way, so every
//! contract about a table reduces to `lookup`, `has_key` and `strip_key`
//! over the entry sequence.

use vstd::prelude::*;

verus! {

/// First value bound to key `k`, scanning left to right.
pub open spec fn lookup<V>(s: Seq<(Vec<char>, V)>, k: Seq<char>) -> Option<V>
    decreases s.len(),
{
    if s.len() == 0 {
        None
    } else if s[0].0@ == k {
        Some(s[0].1)
    } else {
        lookup(s.drop_first(), k)
    }
}

pub open spec fn has_key<V>(s: Seq<(Vec<char>, V)>, k: Seq<char>) -> bool {
    lookup(s, k) is Some
}

/// No two entries bind the same key.
pub open spec fn distinct_keys<V>(s: Seq<(Vec<char>, V)>) -> bool {
    forall|i: int, j: int| 0 <= i < j < s.len() ==> s[i].0@ != s[j].0@
}

/// The list with the first entry for `k` (if any) removed.
pub open spec fn strip_key<V>(s: Seq<(Vec<char>, V)>, k: Seq<char>) -> Seq<(Vec<char>, V)>
    decreases s.len(),
{
    if s.len() == 0 {
        s
    } else if s[0].0@ == k {
        s.drop_first()
    } else {
        seq![s[0]] + strip_key(s.drop_first(), k)
    }
}

/// `lookup` finds the first entry whose key matches.
pub proof fn lemma_lookup_first<V>(s: Seq<(Vec<char>, V)>, k: Seq<char>, i: int)
    requires
        0 <= i < s.len(),
        s[i].0@ == k,
        forall|j: int| 0 <= j < i ==> s[j].0@ != k,
    ensures
        lookup(s, k) == Some(s[i].1),
    decreases s.len(),
{
    if i > 0 {
        lemma_lookup_first(s.drop_first(), k, i - 1);
    }
}

/// A key matched by no entry is not found.
pub proof fn lemma_lookup_none<V>(s: Seq<(Vec<char>, V)>, k: Seq<char>)
    requires
        forall|j: int| 0 <= j < s.len() ==> s[j].0@ != k,
    ensures
        lookup(s, k) is None,
    decreases s.len(),
{
    if s.len() > 0 {
        lemma_lookup_none(s.drop_first(), k);
    }
}

/// A found value sits at some index of the list.
pub proof fn lemma_lookup_some_index<V>(s: Seq<(Vec<char>, V)>, k: Seq<char>) -> (i: int)
    requires
        has_key(s, k),
    ensures
        0 <= i < s.len(),
        s[i].0@ == k,
        lookup(s, k) == Some(s[i].1),
    decreases s.len(),
{
    if s[0].0@ == k {
        0
    } else {
        lemma_lookup_some_index(s.drop_first(), k) + 1
    }
}

/// A key sitting at any index is found.
pub proof fn lemma_index_has_key<V>(s: Seq<(Vec<char>, V)>, k: Seq<char>, i: int)
    requires
        0 <= i < s.len(),
        s[i].0@ == k,
    ensures
        has_key(s, k),
    decreases s.len(),
{
    if s[0].0@ != k {
        lemma_index_has_key(s.drop_first(), k, i - 1);
    }
}

/// Appending an entry only affects the lookup of keys the list misses.
pub proof fn lemma_lookup_push<V>(s: Seq<(Vec<char>, V)>, e: (Vec<char>, V), k: Seq<char>)
    ensures
        has_key(s, k) ==> lookup(s.push(e), k) == lookup(s, k),
        !has_key(s, k) && e.0@ == k ==> lookup(s.push(e), k) == Some(e.1),
        !has_key(s, k) && e.0@ != k ==> lookup(s.push(e), k) is None,
    decreases s.len(),
{
    if s.len() == 0 {
        assert(s.push(e)[0] == e);
        assert(s.push(e).drop_first() =~= Seq::<(Vec<char>, V)>::empty());
        assert(lookup(Seq::<(Vec<char>, V)>::empty(), k) is None);
    } else {
        assert(s.push(e)[0] == s[0]);
        assert(s.push(e).drop_first() =~= s.drop_first().push(e));
        lemma_lookup_push(s.drop_first(), e, k);
    }
}

/// Replacing the entry at `i` with one that keeps its key rebinds exactly
/// that key.
pub proof fn lemma_lookup_update<V>(s: Seq<(Vec<char>, V)>, i: int, e: (Vec<char>, V), k: Seq<char>)
    requires
        distinct_keys(s),
        0 <= i < s.len(),
        e.0@ == s[i].0@,
    ensures
        lookup(s.update(i, e), k) == if k == e.0@ {
            Some(e.1)
        } else {
            lookup(s, k)
        },
        distinct_keys(s.update(i, e)),
    decreases s.len(),
{
    if k == e.0@ {
        lemma_lookup_first(s.update(i, e), k, i);
    } else if s.len() > 0 {
        if i == 0 {
            assert(s.update(i, e).drop_first() =~= s.drop_first());
        } else {
            assert(s.update(i, e).drop_first() =~= s.drop_first().update(i - 1, e));
            lemma_lookup_update(s.drop_first(), i - 1, e, k);
        }
    }
}

/// Stripping a key the list misses changes nothing.
pub proof fn lemma_strip_absent<V>(s: Seq<(Vec<char>, V)>, k: Seq<char>)
    requires
        !has_key(s, k),
    ensures
        strip_key(s, k) =~= s,
    decreases s.len(),
{
    if s.len() > 0 {
        lemma_strip_absent(s.drop_first(), k);
    }
}

/// On a list with distinct keys, stripping `k` is removal of its one index.
pub proof fn lemma_strip_is_remove<V>(s: Seq<(Vec<char>, V)>, k: Seq<char>, i: int)
    requires
        distinct_keys(s),
        0 <= i < s.len(),
        s[i].0@ == k,
    ensures
        strip_key(s, k) =~= s.remove(i),
    decreases s.len(),
{
    if i == 0 {
        assert(s.remove(0) =~= s.drop_first());
    } else {
        lemma_strip_is_remove(s.drop_first(), k, i - 1);
        assert(s.remove(i) =~= seq![s[0]] + s.drop_first().remove(i - 1));
    }
}

/// What stripping a key does to every lookup, and that it keeps keys distinct.
pub proof fn lemma_strip_lookup<V>(s: Seq<(Vec<char>, V)>, k: Seq<char>, q: Seq<char>)
    requires
        distinct_keys(s),
    ensures
        distinct_keys(strip_key(s, k)),
        lookup(strip_key(s, k), q) == if q == k {
            None::<V>
        } else {
            lookup(s, q)
        },
        strip_key(s, k).len() == s.len() - (if has_key(s, k) {
            1int
        } else {
            0
        }),
    decreases s.len(),
{
    if s.len() == 0 {
    } else if s[0].0@ == k {
        assert(distinct_keys(s.drop_first()));
        if q == k {
            lemma_lookup_none(s.drop_first(), k);
        }
    } else {
        assert(distinct_keys(s.drop_first()));
        lemma_strip_lookup(s.drop_first(), k, q);
        let st = seq![s[0]] + strip_key(s.drop_first(), k);
        assert(st.drop_first() =~= strip_key(s.drop_first(), k));
        assert forall|i: int, j: int| 0 <= i < j < st.len() implies st[i].0@ != st[j].0@ by {
            if i == 0 {
                let sd = strip_key(s.drop_first(), k);
                assert(st[j] == sd[j - 1]);
                let w = lemma_strip_index_source(s.drop_first(), k, j - 1);
                assert(s.drop_first()[w] == sd[j - 1]);
                assert(s[w + 1] == sd[j - 1]);
            }
        }
    }
}

/// Pushing an entry for a key the list misses and stripping that key again
/// returns the original list.
pub proof fn lemma_strip_push_absent<V>(s: Seq<(Vec<char>, V)>, e: (Vec<char>, V), k: Seq<char>)
    requires
        !has_key(s, k),
        e.0@ == k,
    ensures
        strip_key(s.push(e), k) =~= s,
    decreases s.len(),
{
    if s.len() == 0 {
        assert(s.push(e)[0] == e);
        assert(s.push(e).drop_first() =~= Seq::<(Vec<char>, V)>::empty());
    } else {
        assert(s.push(e)[0] == s[0]);
        assert(s.push(e).drop_first() =~= s.drop_first().push(e));
        lemma_strip_push_absent(s.drop_first(), e, k);
    }
}

/// Every entry of a stripped list comes from the original list.
pub proof fn lemma_strip_index_source<V>(s: Seq<(Vec<char>, V)>, k: Seq<char>, i: int) -> (j: int)
    requires
        0 <= i < strip_key(s, k).len(),
    ensures
        0 <= j < s.len(),
        s[j] == strip_key(s, k)[i],
        j >= i,
    decreases s.len(),
{
    if s.len() == 0 {
        0
    } else if s[0].0@ == k {
        i + 1
    } else if i == 0 {
        0
    } else {
        let st = seq![s[0]] + strip_key(s.drop_first(), k);
        assert(st[i] == strip_key(s.drop_first(), k)[i - 1]);
        lemma_strip_index_source(s.drop_first(), k, i - 1) + 1
    }
}

} // verus!
