use vstd::prelude::*;

verus! {

/// Whether `keys` is strictly increasing.
pub open spec fn strictly_sorted(keys: Seq<u8>) -> bool {
    forall|i: int, j: int| 0 <= i < j < keys.len() ==> keys[i] < keys[j]
}

/// The position of `b` in `keys`, or -1 where it does not occur.
pub open spec fn slot_of(keys: Seq<u8>, b: u8) -> int {
    if exists|i: int| 0 <= i < keys.len() && keys[i] == b {
        choose|i: int| 0 <= i < keys.len() && keys[i] == b
    } else {
        -1
    }
}

/// Whether `idx` is the position at which `b` keeps the order of `keys`:
/// the entries before it are smaller than `b`, the others are not.
pub open spec fn is_lower_bound(keys: Seq<u8>, b: u8, idx: int) -> bool {
    &&& 0 <= idx <= keys.len()
    &&& forall|i: int| 0 <= i < idx ==> keys[i] < b
    &&& forall|i: int| idx <= i < keys.len() ==> keys[i] >= b
}

/// The position at which `b` keeps the order of `keys`.
pub open spec fn lower_bound_of(keys: Seq<u8>, b: u8) -> int {
    choose|idx: int| is_lower_bound(keys, b, idx)
}

/// There is one position at which `b` keeps the order of `keys`.
pub proof fn lemma_lower_bound_unique(keys: Seq<u8>, b: u8, idx: int)
    requires
        is_lower_bound(keys, b, idx),
    ensures
        lower_bound_of(keys, b) == idx,
{
    let other = lower_bound_of(keys, b);
    assert(is_lower_bound(keys, b, other));
    if other < idx {
        assert(keys[other] < b);
    } else if idx < other {
        assert(keys[idx] < b);
    }
}

/// In a strictly increasing sequence every entry is found at its own position.
pub proof fn lemma_slot_found(keys: Seq<u8>, i: int)
    requires
        strictly_sorted(keys),
        0 <= i < keys.len(),
    ensures
        slot_of(keys, keys[i]) == i,
{
    let j = slot_of(keys, keys[i]);
    assert(0 <= j < keys.len() && keys[j] == keys[i]);
    if j < i {
        assert(keys[j] < keys[i]);
    } else if i < j {
        assert(keys[i] < keys[j]);
    }
}

/// What `slot_of` returns is a position of `b`, or -1 and `b` does not occur.
pub proof fn lemma_slot_range(keys: Seq<u8>, b: u8)
    ensures
        -1 <= slot_of(keys, b) < keys.len(),
        slot_of(keys, b) >= 0 ==> keys[slot_of(keys, b)] == b,
        slot_of(keys, b) < 0 ==> forall|i: int| 0 <= i < keys.len() ==> keys[i] != b,
{
}

/// Inserting a new byte at its lower bound keeps the order, puts the byte at
/// that position and moves the later entries up by one.
pub proof fn lemma_insert_slots(keys: Seq<u8>, b: u8, idx: int)
    requires
        strictly_sorted(keys),
        is_lower_bound(keys, b, idx),
        slot_of(keys, b) < 0,
    ensures
        strictly_sorted(keys.insert(idx, b)),
        slot_of(keys.insert(idx, b), b) == idx,
        forall|x: u8|
            x != b ==> #[trigger] slot_of(keys.insert(idx, b), x) == {
                let s = slot_of(keys, x);
                if s < 0 {
                    -1
                } else if s < idx {
                    s
                } else {
                    s + 1
                }
            },
{
    let after = keys.insert(idx, b);
    lemma_slot_range(keys, b);
    assert forall|i: int, j: int| 0 <= i < j < after.len() implies after[i] < after[j] by {
        if j == idx {
            assert(after[i] == keys[i]);
        } else if i == idx {
            assert(after[j] == keys[j - 1]);
            assert(keys[j - 1] >= b);
        } else {
            let i0 = if i < idx { i } else { i - 1 };
            let j0 = if j < idx { j } else { j - 1 };
            assert(after[i] == keys[i0] && after[j] == keys[j0]);
        }
    }
    assert(after[idx] == b);
    lemma_slot_found(after, idx);
    assert forall|x: u8| x != b implies #[trigger] slot_of(after, x) == {
        let s = slot_of(keys, x);
        if s < 0 {
            -1
        } else if s < idx {
            s
        } else {
            s + 1
        }
    } by {
        let s = slot_of(keys, x);
        lemma_slot_range(keys, x);
        lemma_slot_range(after, x);
        if s < 0 {
            let t = slot_of(after, x);
            if t >= 0 {
                let t0 = if t < idx { t } else { t - 1 };
                assert(after[t] == keys[t0]);
            }
        } else {
            let t = if s < idx { s } else { s + 1 };
            assert(after[t] == keys[s]);
            lemma_slot_found(after, t);
        }
    }
}

/// Removing an entry keeps the order, forgets the entry's byte and moves the
/// later entries down by one.
pub proof fn lemma_remove_slots(keys: Seq<u8>, idx: int)
    requires
        strictly_sorted(keys),
        0 <= idx < keys.len(),
    ensures
        strictly_sorted(keys.remove(idx)),
        slot_of(keys.remove(idx), keys[idx]) == -1,
        forall|x: u8|
            x != keys[idx] ==> #[trigger] slot_of(keys.remove(idx), x) == {
                let s = slot_of(keys, x);
                if s < idx {
                    s
                } else {
                    s - 1
                }
            },
{
    let after = keys.remove(idx);
    let b = keys[idx];
    assert forall|i: int, j: int| 0 <= i < j < after.len() implies after[i] < after[j] by {
        let i0 = if i < idx { i } else { i + 1 };
        let j0 = if j < idx { j } else { j + 1 };
        assert(after[i] == keys[i0] && after[j] == keys[j0]);
    }
    lemma_slot_range(after, b);
    if slot_of(after, b) >= 0 {
        let t = slot_of(after, b);
        let t0 = if t < idx { t } else { t + 1 };
        assert(after[t] == keys[t0]);
        lemma_slot_found(keys, t0);
        lemma_slot_found(keys, idx);
    }
    assert forall|x: u8| x != b implies #[trigger] slot_of(after, x) == {
        let s = slot_of(keys, x);
        if s < idx {
            s
        } else {
            s - 1
        }
    } by {
        let s = slot_of(keys, x);
        lemma_slot_range(keys, x);
        lemma_slot_range(after, x);
        if s < 0 {
            let t = slot_of(after, x);
            if t >= 0 {
                let t0 = if t < idx { t } else { t + 1 };
                assert(after[t] == keys[t0]);
            }
        } else {
            let t = if s < idx { s } else { s - 1 };
            assert(after[t] == keys[s]);
            lemma_slot_found(after, t);
        }
    }
}

/// The position of `b` in the strictly increasing `keys`, found by halving.
#[inline]
pub fn search(keys: &[u8], b: u8) -> (found: Option<usize>)
    requires
        strictly_sorted(keys@),
    ensures
        match found {
            Some(i) => i == slot_of(keys@, b) && i < keys@.len(),
            None => slot_of(keys@, b) < 0,
        },
{
    let mut lo: usize = 0;
    let mut hi: usize = keys.len();
    while lo < hi
        invariant
            strictly_sorted(keys@),
            0 <= lo <= hi <= keys@.len(),
            forall|i: int| 0 <= i < lo ==> keys@[i] < b,
            forall|i: int| hi <= i < keys@.len() ==> keys@[i] > b,
        decreases hi - lo,
    {
        let mid = lo + (hi - lo) / 2;
        let k = keys[mid];
        if k == b {
            proof {
                lemma_slot_found(keys@, mid as int);
            }
            return Some(mid);
        } else if k < b {
            assert forall|i: int| 0 <= i < mid + 1 implies keys@[i] < b by {
                if i < mid {
                    assert(keys@[i] < keys@[mid as int]);
                }
            }
            lo = mid + 1;
        } else {
            assert forall|i: int| mid <= i < keys@.len() implies keys@[i] > b by {
                if i > mid {
                    assert(keys@[mid as int] < keys@[i]);
                }
            }
            hi = mid;
        }
    }
    proof {
        lemma_slot_range(keys@, b);
    }
    None
}

/// The position of `b` in the strictly increasing `keys`, found by a scan
/// from the left.
#[inline]
pub fn scan(keys: &[u8], b: u8) -> (found: Option<usize>)
    requires
        strictly_sorted(keys@),
    ensures
        match found {
            Some(i) => i == slot_of(keys@, b) && i < keys@.len(),
            None => slot_of(keys@, b) < 0,
        },
{
    let mut i: usize = 0;
    while i < keys.len()
        invariant
            strictly_sorted(keys@),
            i <= keys@.len(),
            forall|j: int| 0 <= j < i ==> keys@[j] != b,
        decreases keys.len() - i,
    {
        if keys[i] == b {
            proof {
                lemma_slot_found(keys@, i as int);
            }
            return Some(i);
        }
        i += 1;
    }
    proof {
        lemma_slot_range(keys@, b);
    }
    None
}

/// The first position of `keys` whose entry is not smaller than `b`.
#[inline]
pub fn lower_bound(keys: &[u8], b: u8) -> (idx: usize)
    requires
        strictly_sorted(keys@),
    ensures
        is_lower_bound(keys@, b, idx as int),
        idx == lower_bound_of(keys@, b),
{
    let mut idx: usize = 0;
    while idx < keys.len() && keys[idx] < b
        invariant
            strictly_sorted(keys@),
            idx <= keys@.len(),
            forall|i: int| 0 <= i < idx ==> keys@[i] < b,
        decreases keys.len() - idx,
    {
        idx += 1;
    }
    assert forall|i: int| idx <= i < keys@.len() implies keys@[i] >= b by {
        if i > idx {
            assert(keys@[idx as int] < keys@[i]);
        }
    }
    proof {
        lemma_lower_bound_unique(keys@, b, idx as int);
    }
    idx
}

/// The value that stands beside `b` where `keys` and `vals` run in parallel.
pub open spec fn entry_of<T>(keys: Seq<u8>, vals: Seq<T>, b: u8) -> Option<T> {
    let i = slot_of(keys, b);
    if 0 <= i < vals.len() {
        Some(vals[i])
    } else {
        None
    }
}

/// Inserting a new byte and its value at the byte's lower bound adds that
/// entry and leaves every other byte with the value it had.
pub proof fn lemma_insert_entries<T>(keys: Seq<u8>, vals: Seq<T>, b: u8, idx: int, v: T)
    requires
        strictly_sorted(keys),
        keys.len() == vals.len(),
        is_lower_bound(keys, b, idx),
        slot_of(keys, b) < 0,
    ensures
        strictly_sorted(keys.insert(idx, b)),
        forall|x: u8| #[trigger]
            entry_of(keys.insert(idx, b), vals.insert(idx, v), x) == if x == b {
                Some(v)
            } else {
                entry_of(keys, vals, x)
            },
{
    lemma_insert_slots(keys, b, idx);
    assert forall|x: u8| #[trigger]
        entry_of(keys.insert(idx, b), vals.insert(idx, v), x) == if x == b {
            Some(v)
        } else {
            entry_of(keys, vals, x)
        } by {
        lemma_slot_range(keys, x);
        if x != b {
            assert(slot_of(keys.insert(idx, b), x) == {
                let s = slot_of(keys, x);
                if s < 0 {
                    -1
                } else if s < idx {
                    s
                } else {
                    s + 1
                }
            });
        }
    }
}

/// Removing the entry at a position forgets that entry's byte and leaves
/// every other byte with the value it had.
pub proof fn lemma_remove_entries<T>(keys: Seq<u8>, vals: Seq<T>, idx: int)
    requires
        strictly_sorted(keys),
        keys.len() == vals.len(),
        0 <= idx < keys.len(),
    ensures
        strictly_sorted(keys.remove(idx)),
        forall|x: u8| #[trigger]
            entry_of(keys.remove(idx), vals.remove(idx), x) == if x == keys[idx] {
                None
            } else {
                entry_of(keys, vals, x)
            },
{
    lemma_remove_slots(keys, idx);
    assert forall|x: u8| #[trigger]
        entry_of(keys.remove(idx), vals.remove(idx), x) == if x == keys[idx] {
            None
        } else {
            entry_of(keys, vals, x)
        } by {
        lemma_slot_range(keys, x);
        if x != keys[idx] {
            assert(slot_of(keys.remove(idx), x) == {
                let s = slot_of(keys, x);
                if s < idx {
                    s
                } else {
                    s - 1
                }
            });
            if slot_of(keys, x) >= 0 {
                lemma_slot_found(keys, idx);
            }
        }
    }
}

/// Replacing the value at a position changes the entry of that position's
/// byte and no other.
pub proof fn lemma_update_entries<T>(keys: Seq<u8>, vals: Seq<T>, idx: int, v: T)
    requires
        strictly_sorted(keys),
        keys.len() == vals.len(),
        0 <= idx < keys.len(),
    ensures
        forall|x: u8| #[trigger]
            entry_of(keys, vals.update(idx, v), x) == if x == keys[idx] {
                Some(v)
            } else {
                entry_of(keys, vals, x)
            },
{
    assert forall|x: u8| #[trigger]
        entry_of(keys, vals.update(idx, v), x) == if x == keys[idx] {
            Some(v)
        } else {
            entry_of(keys, vals, x)
        } by {
        lemma_slot_range(keys, x);
        lemma_slot_found(keys, idx);
    }
}

} // verus!
