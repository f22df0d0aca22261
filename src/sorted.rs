use vstd::prelude::*;

verus! {

/// Strictly ascending, hence free of duplicates.
pub open spec fn strictly_sorted(s: Seq<u64>) -> bool {
    forall|i: int, j: int| 0 <= i < j < s.len() ==> s[i] < s[j]
}

/// Inserts `x` at its sorted position; returns false (and changes nothing)
/// when `x` is already present.
pub fn sorted_insert(v: &mut Vec<u64>, x: u64) -> (inserted: bool)
    requires
        strictly_sorted(old(v)@),
    ensures
        strictly_sorted(final(v)@),
        inserted == !old(v)@.contains(x),
        forall|y: u64| final(v)@.contains(y) <==> (old(v)@.contains(y) || y == x),
        !inserted ==> final(v)@ == old(v)@,
{
    let mut pos: usize = 0;
    while pos < v.len() && v[pos] < x
        invariant
            pos <= v.len(),
            strictly_sorted(v@),
            forall|i: int| 0 <= i < pos ==> v@[i] < x,
        decreases v.len() - pos,
    {
        pos = pos + 1;
    }
    if pos < v.len() && v[pos] == x {
        assert(v@.contains(x)) by { assert(v@[pos as int] == x); }
        return false;
    }
    assert(!v@.contains(x)) by {
        if v@.contains(x) {
            let k = choose|k: int| 0 <= k < v@.len() && v@[k] == x;
            if k < pos {
            } else if k > pos {
                assert(v@[pos as int] < v@[k]);
            }
        }
    }
    let ghost before = v@;
    v.insert(pos, x);
    assert forall|y: u64| v@.contains(y) <==> (before.contains(y) || y == x) by {
        if v@.contains(y) {
            let k = choose|k: int| 0 <= k < v@.len() && v@[k] == y;
            if k < pos {
                assert(before[k] == y);
            } else if k > pos {
                assert(before[k - 1] == y);
            }
        }
        if before.contains(y) {
            let k = choose|k: int| 0 <= k < before.len() && before[k] == y;
            if k < pos {
                assert(v@[k] == y);
            } else {
                assert(v@[k + 1] == y);
            }
        }
        if y == x {
            assert(v@[pos as int] == x);
        }
    }
    true
}

/// Removes `x`; returns false (and changes nothing) when it is absent.
pub fn sorted_remove(v: &mut Vec<u64>, x: u64) -> (removed: bool)
    requires
        strictly_sorted(old(v)@),
    ensures
        strictly_sorted(final(v)@),
        removed == old(v)@.contains(x),
        forall|y: u64| final(v)@.contains(y) <==> (old(v)@.contains(y) && y != x),
        !removed ==> final(v)@ == old(v)@,
{
    let mut pos: usize = 0;
    while pos < v.len() && v[pos] != x
        invariant
            pos <= v.len(),
            forall|i: int| 0 <= i < pos ==> v@[i] != x,
        decreases v.len() - pos,
    {
        pos = pos + 1;
    }
    if pos == v.len() {
        return false;
    }
    let ghost before = v@;
    v.remove(pos);
    assert forall|y: u64| v@.contains(y) <==> (before.contains(y) && y != x) by {
        if v@.contains(y) {
            let k = choose|k: int| 0 <= k < v@.len() && v@[k] == y;
            if k < pos {
                assert(before[k] == y);
            } else {
                assert(before[k + 1] == y);
                assert(before[pos as int] < before[k + 1]);
            }
        }
        if before.contains(y) && y != x {
            let k = choose|k: int| 0 <= k < before.len() && before[k] == y;
            if k < pos {
                assert(v@[k] == y);
            } else {
                assert(k != pos);
                assert(v@[k - 1] == y);
            }
        }
    }
    assert(before.contains(x)) by { assert(before[pos as int] == x); }
    true
}

} // verus!
