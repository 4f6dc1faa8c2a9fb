use vstd::prelude::*;

verus! {

/// Number of `true` entries of `s`.
pub open spec fn count_true(s: Seq<bool>) -> nat
    decreases s.len(),
{
    if s.len() == 0 {
        0
    } else {
        count_true(s.drop_last()) + if s.last() {
            1nat
        } else {
            0nat
        }
    }
}

pub proof fn lemma_count_bound(s: Seq<bool>)
    ensures
        count_true(s) <= s.len(),
    decreases s.len(),
{
    if s.len() > 0 {
        lemma_count_bound(s.drop_last());
    }
}

/// A sequence that counts as many `true` entries as it is long holds no `false`.
pub proof fn lemma_count_full(s: Seq<bool>)
    requires
        count_true(s) == s.len(),
    ensures
        forall|i: int| 0 <= i < s.len() ==> s[i],
    decreases s.len(),
{
    if s.len() > 0 {
        lemma_count_bound(s.drop_last());
        lemma_count_full(s.drop_last());
        assert forall|i: int| 0 <= i < s.len() implies s[i] by {
            if i < s.len() - 1 {
                assert(s.drop_last()[i] == s[i]);
            }
        }
    }
}

/// A sequence that holds no `false` counts as many entries as it is long.
pub proof fn lemma_count_all(s: Seq<bool>)
    requires
        forall|i: int| 0 <= i < s.len() ==> s[i],
    ensures
        count_true(s) == s.len(),
    decreases s.len(),
{
    if s.len() > 0 {
        assert forall|i: int| 0 <= i < s.drop_last().len() implies s.drop_last()[i] by {
            assert(s.drop_last()[i] == s[i]);
        }
        lemma_count_all(s.drop_last());
        assert(s.last());
    }
}

/// A sequence without a `true` entry counts none, and the reverse.
pub proof fn lemma_count_zero(s: Seq<bool>)
    ensures
        count_true(s) == 0 <==> (forall|i: int| 0 <= i < s.len() ==> !s[i]),
    decreases s.len(),
{
    if s.len() > 0 {
        lemma_count_zero(s.drop_last());
        if count_true(s) == 0 {
            assert forall|i: int| 0 <= i < s.len() implies !s[i] by {
                if i < s.len() - 1 {
                    assert(s.drop_last()[i] == s[i]);
                }
            }
        } else if forall|i: int| 0 <= i < s.len() ==> !s[i] {
            assert forall|i: int| 0 <= i < s.drop_last().len() implies !s.drop_last()[i] by {
                assert(s.drop_last()[i] == s[i]);
            }
            assert(!s.last());
        }
    }
}

/// Changing one entry changes the count by that entry alone.
pub proof fn lemma_count_update(s: Seq<bool>, i: int, v: bool)
    requires
        0 <= i < s.len(),
    ensures
        count_true(s.update(i, v)) + (if s[i] { 1nat } else { 0nat })
            == count_true(s) + (if v { 1nat } else { 0nat }),
    decreases s.len(),
{
    let t = s.update(i, v);
    if i == s.len() - 1 {
        assert(t.drop_last() =~= s.drop_last());
    } else {
        lemma_count_update(s.drop_last(), i, v);
        assert(t.drop_last() =~= s.drop_last().update(i, v));
    }
}

/// Counting a prefix one entry longer adds that entry.
pub proof fn lemma_count_take(s: Seq<bool>, n: int)
    requires
        0 <= n < s.len(),
    ensures
        count_true(s.take(n + 1)) == count_true(s.take(n)) + (if s[n] { 1nat } else { 0nat }),
        count_true(s.take(n)) <= n,
{
    assert(s.take(n + 1).drop_last() =~= s.take(n));
    lemma_count_bound(s.take(n));
}

/// A sequence that counts two `true` entries holds them at two places.
pub proof fn lemma_count_two(s: Seq<bool>) -> (found: (int, int))
    requires
        count_true(s) >= 2,
    ensures
        0 <= found.0 < found.1 < s.len(),
        s[found.0],
        s[found.1],
    decreases s.len(),
{
    let front = s.drop_last();
    if s.last() {
        lemma_count_zero(front);
        let i = choose|i: int| 0 <= i < front.len() && front[i];
        assert(s[i] == front[i]);
        (i, s.len() - 1)
    } else {
        let found = lemma_count_two(front);
        assert(s[found.0] == front[found.0]);
        assert(s[found.1] == front[found.1]);
        found
    }
}

} // verus!
