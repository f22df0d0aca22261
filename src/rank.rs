use vstd::prelude::*;

verus! {

/// Order of rank entries `(score, resource id)`: by score, then by id.
pub open spec fn entry_lt(a: (u64, u64), b: (u64, u64)) -> bool {
    a.0 < b.0 || (a.0 == b.0 && a.1 < b.1)
}

/// Strictly ascending by `(score, id)`.
pub open spec fn rank_sorted(s: Seq<(u64, u64)>) -> bool {
    forall|i: int, j: int| 0 <= i < j < s.len() ==> entry_lt(s[i], s[j])
}

fn entry_less(a: (u64, u64), b: (u64, u64)) -> (r: bool)
    ensures
        r == entry_lt(a, b),
{
    a.0 < b.0 || (a.0 == b.0 && a.1 < b.1)
}

/// Inserts an entry at its sorted position; false (and no change) when it is
/// already present.
pub fn rank_insert(rank: &mut Vec<(u64, u64)>, e: (u64, u64)) -> (inserted: bool)
    requires
        rank_sorted(old(rank)@),
    ensures
        rank_sorted(final(rank)@),
        inserted == !old(rank)@.contains(e),
        forall|x: (u64, u64)| #[trigger] final(rank)@.contains(x) <==> (old(rank)@.contains(x) || x == e),
        !inserted ==> final(rank)@ == old(rank)@,
        inserted ==> final(rank)@.len() == old(rank)@.len() + 1,
        inserted ==> exists|q: int| 0 <= q <= old(rank)@.len()
            && #[trigger] old(rank)@.insert(q, e) == final(rank)@
            && (forall|k: int| 0 <= k < q ==> entry_lt(#[trigger] old(rank)@[k], e))
            && (forall|k: int| q <= k < old(rank)@.len() ==> entry_lt(e, #[trigger] old(rank)@[k])),
{
    let mut pos: usize = 0;
    while pos < rank.len() && entry_less(rank[pos], e)
        invariant
            pos <= rank.len(),
            rank_sorted(rank@),
            forall|i: int| 0 <= i < pos ==> entry_lt(rank@[i], e),
        decreases rank.len() - pos,
    {
        pos = pos + 1;
    }
    if pos < rank.len() && rank[pos].0 == e.0 && rank[pos].1 == e.1 {
        assert(rank@.contains(e)) by { assert(rank@[pos as int] == e); }
        return false;
    }
    assert(!rank@.contains(e)) by {
        if rank@.contains(e) {
            let k = choose|k: int| 0 <= k < rank@.len() && rank@[k] == e;
            if k > pos {
                assert(entry_lt(rank@[pos as int], rank@[k]));
            }
        }
    }
    let ghost before = rank@;
    assert(pos < before.len() ==> entry_lt(e, before[pos as int]));
    assert forall|k: int| pos <= k < before.len() implies entry_lt(e, before[k]) by {
        if k > pos {
            assert(entry_lt(before[pos as int], before[k]));
        }
    }
    rank.insert(pos, e);
    assert(before.insert(pos as int, e) == rank@);
    assert forall|i: int, j: int| 0 <= i < j < rank@.len() implies entry_lt(rank@[i], rank@[j]) by {
        if j < pos {
        } else if j == pos {
        } else if i < pos {
            assert(entry_lt(before[i], e));
            assert(entry_lt(e, before[pos as int]));
        } else if i == pos {
            assert(entry_lt(e, before[pos as int]));
            assert(rank@[j] == before[j - 1]);
            if j - 1 > pos {
                assert(entry_lt(before[pos as int], before[j - 1]));
            }
        } else {
            assert(rank@[i] == before[i - 1]);
            assert(rank@[j] == before[j - 1]);
        }
    }
    assert forall|x: (u64, u64)| rank@.contains(x) <==> (before.contains(x) || x == e) by {
        if rank@.contains(x) {
            let k = choose|k: int| 0 <= k < rank@.len() && rank@[k] == x;
            if k < pos {
                assert(before[k] == x);
            } else if k > pos {
                assert(before[k - 1] == x);
            }
        }
        if before.contains(x) {
            let k = choose|k: int| 0 <= k < before.len() && before[k] == x;
            if k < pos {
                assert(rank@[k] == x);
            } else {
                assert(rank@[k + 1] == x);
            }
        }
        if x == e {
            assert(rank@[pos as int] == e);
        }
    }
    true
}

/// Removes every entry of resource `id`.
pub fn rank_remove_id(rank: &mut Vec<(u64, u64)>, id: u64)
    requires
        rank_sorted(old(rank)@),
    ensures
        rank_sorted(final(rank)@),
        forall|x: (u64, u64)| #[trigger] final(rank)@.contains(x) <==> (old(rank)@.contains(x) && x.1 != id),
        forall|x: (u64, u64)| #[trigger] old(rank)@.contains(x) && x.1 != id ==> final(rank)@.contains(x),
{
    let ghost before = rank@;
    let mut out: Vec<(u64, u64)> = Vec::new();
    let mut i: usize = 0;
    while i < rank.len()
        invariant
            rank@ == before,
            rank_sorted(before),
            i <= rank.len(),
            rank_sorted(out@),
            forall|k: int| 0 <= k < out@.len() ==> exists|m: int| 0 <= m < i && before[m] == #[trigger] out@[k],
            forall|x: (u64, u64)| #[trigger] out@.contains(x) <==> (exists|m: int| 0 <= m < i && before[m] == x) && x.1 != id,
        decreases rank.len() - i,
    {
        let e = rank[i];
        if e.1 != id {
            let ghost o = out@;
            assert forall|k: int| 0 <= k < o.len() implies entry_lt(o[k], e) by {
                let m = choose|m: int| 0 <= m < i && before[m] == o[k];
                assert(entry_lt(before[m], before[i as int]));
            }
            out.push(e);
            assert forall|x: (u64, u64)| #[trigger] out@.contains(x) <==> (exists|m: int| 0 <= m < i + 1 && before[m] == x) && x.1 != id by {
                if out@.contains(x) {
                    let k = choose|k: int| 0 <= k < out@.len() && out@[k] == x;
                    if k < o.len() {
                        assert(o.contains(x));
                    } else {
                        assert(before[i as int] == x);
                    }
                }
                if (exists|m: int| 0 <= m < i + 1 && before[m] == x) && x.1 != id {
                    let m = choose|m: int| 0 <= m < i + 1 && before[m] == x;
                    if m == i {
                        assert(out@[o.len() as int] == x);
                    } else {
                        assert(o.contains(x));
                        let k = choose|k: int| 0 <= k < o.len() && o[k] == x;
                        assert(out@[k] == x);
                    }
                }
            }
        } else {
            assert forall|x: (u64, u64)| #[trigger] out@.contains(x) <==> (exists|m: int| 0 <= m < i + 1 && before[m] == x) && x.1 != id by {
                if (exists|m: int| 0 <= m < i + 1 && before[m] == x) && x.1 != id {
                    let m = choose|m: int| 0 <= m < i + 1 && before[m] == x;
                    assert(m != i);
                }
            }
        }
        i = i + 1;
    }
    *rank = out;
    assert forall|x: (u64, u64)| #[trigger] before.contains(x) && x.1 != id implies rank@.contains(x) by {
        let m = choose|m: int| 0 <= m < before.len() && before[m] == x;
    }
}

} // verus!
