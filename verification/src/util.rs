//! Counting over sequences, used for termination measures: how many
//! entries of a sequence hold a given value.

use vstd::prelude::*;

verus! {

/// How many entries of `s` equal `v`.
pub open spec fn count_val<T>(s: Seq<T>, v: T) -> nat
    decreases s.len(),
{
    if s.len() == 0 {
        0
    } else {
        count_val(s.drop_last(), v) + if s.last() == v {
            1nat
        } else {
            0nat
        }
    }
}

/// Updating one entry changes the count by the difference at that entry.
pub proof fn lemma_count_update<T>(s: Seq<T>, i: int, x: T, v: T)
    requires
        0 <= i < s.len(),
    ensures
        count_val(s.update(i, x), v) == count_val(s, v) + (if x == v {
            1int
        } else {
            0int
        }) - (if s[i] == v {
            1int
        } else {
            0int
        }),
    decreases s.len(),
{
    let t = s.update(i, x);
    if i == s.len() - 1 {
        assert(t.drop_last() =~= s.drop_last());
    } else {
        assert(t.drop_last() =~= s.drop_last().update(i, x));
        assert(t.last() == s.last());
        lemma_count_update(s.drop_last(), i, x, v);
    }
}

/// If no entry equals `v`, the count is zero.
pub proof fn lemma_count_none<T>(s: Seq<T>, v: T)
    requires
        forall|i: int| 0 <= i < s.len() ==> s[i] != v,
    ensures
        count_val(s, v) == 0,
    decreases s.len(),
{
    if s.len() > 0 {
        lemma_count_none(s.drop_last(), v);
    }
}

/// The count never exceeds the length.
pub proof fn lemma_count_le_len<T>(s: Seq<T>, v: T)
    ensures
        count_val(s, v) <= s.len(),
    decreases s.len(),
{
    if s.len() > 0 {
        lemma_count_le_len(s.drop_last(), v);
    }
}

/// If every entry equals `v`, the count is the length.
pub proof fn lemma_count_all<T>(s: Seq<T>, v: T)
    requires
        forall|i: int| 0 <= i < s.len() ==> s[i] == v,
    ensures
        count_val(s, v) == s.len(),
    decreases s.len(),
{
    if s.len() > 0 {
        lemma_count_all(s.drop_last(), v);
    }
}

/// If every entry that equals `v` in `t` also equals `v` in `s` at the
/// same position, `t` has no more such entries than `s`.
pub proof fn lemma_count_le<T>(s: Seq<T>, t: Seq<T>, v: T)
    requires
        s.len() == t.len(),
        forall|i: int| 0 <= i < t.len() && t[i] == v ==> s[i] == v,
    ensures
        count_val(t, v) <= count_val(s, v),
    decreases s.len(),
{
    if s.len() > 0 {
        lemma_count_le(s.drop_last(), t.drop_last(), v);
    }
}

/// As above, but with one position where `s` holds `v` and `t` does not:
/// the count strictly drops.
pub proof fn lemma_count_lt<T>(s: Seq<T>, t: Seq<T>, v: T, w: int)
    requires
        s.len() == t.len(),
        forall|i: int| 0 <= i < t.len() && t[i] == v ==> s[i] == v,
        0 <= w < s.len(),
        s[w] == v,
        t[w] != v,
    ensures
        count_val(t, v) < count_val(s, v),
    decreases s.len(),
{
    if w == s.len() - 1 {
        lemma_count_le(s.drop_last(), t.drop_last(), v);
    } else {
        lemma_count_lt(s.drop_last(), t.drop_last(), v, w);
    }
}

} // verus!
