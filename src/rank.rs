use vstd::prelude::*;

verus! {

/// In a ranking by descending key, position `a` comes before position `b`:
/// its key is greater, or the keys are equal and `a` is the earlier one.
pub open spec fn ranks_before(keys: Seq<u64>, a: int, b: int) -> bool {
    keys[a] > keys[b] || (keys[a] == keys[b] && a < b)
}

/// Position `x` appears in `r`.
pub open spec fn occurs(r: Seq<usize>, x: int) -> bool {
    exists|i: int| 0 <= i < r.len() && #[trigger] r[i] == x
}

/// A ranking of the positions of `keys`: each position once, each before
/// every later one in the order of `ranks_before`.
pub open spec fn is_ranking(keys: Seq<u64>, r: Seq<usize>) -> bool {
    &&& r.len() == keys.len()
    &&& forall|i: int| 0 <= i < r.len() ==> #[trigger] r[i] < keys.len()
    &&& forall|x: int| 0 <= x < keys.len() ==> #[trigger] occurs(r, x)
    &&& forall|i: int, j: int|
        0 <= i < j < r.len() ==> ranks_before(keys, #[trigger] r[i] as int, #[trigger] r[j] as int)
}

/// Orders the positions of `keys` by descending key; equal keys keep their
/// order. Where a key is a score in an order-preserving encoding, this is
/// the ranking of the scored documents.
pub fn rank_order(keys: &Vec<u64>) -> (r: Vec<usize>)
    ensures
        is_ranking(keys@, r@),
{
    let mut r: Vec<usize> = Vec::new();
    let mut j: usize = 0;
    while j < keys.len()
        invariant
            j <= keys@.len(),
            r@.len() == j,
            forall|i: int| 0 <= i < r@.len() ==> #[trigger] r@[i] < j,
            forall|x: int| 0 <= x < j ==> #[trigger] occurs(r@, x),
            forall|a: int, b: int|
                0 <= a < b < r@.len() ==> ranks_before(keys@, #[trigger] r@[a] as int, #[trigger] r@[b] as int),
        decreases keys@.len() - j,
    {
        let mut p: usize = 0;
        while p < r.len() && keys[r[p]] >= keys[j]
            invariant
                j < keys@.len(),
                p <= r@.len(),
                forall|i: int| 0 <= i < r@.len() ==> #[trigger] r@[i] < j,
                forall|i: int| 0 <= i < p ==> keys@[#[trigger] r@[i] as int] >= keys@[j as int],
            decreases r@.len() - p,
        {
            p += 1;
        }
        let ghost before = r@;
        proof {
            assert forall|i: int| p <= i < before.len() implies keys@[#[trigger] before[i] as int] < keys@[j as int] by {
                if i > p {
                    assert(ranks_before(keys@, before[p as int] as int, before[i] as int));
                }
            }
        }
        r.insert(p, j);
        proof {
            assert forall|a: int, b: int|
                0 <= a < b < r@.len() implies ranks_before(keys@, #[trigger] r@[a] as int, #[trigger] r@[b] as int) by {
                if b < p {
                    assert(r@[a] == before[a] && r@[b] == before[b]);
                } else if b == p {
                    assert(r@[a] == before[a]);
                } else if a < p {
                    assert(r@[a] == before[a] && r@[b] == before[b - 1]);
                } else if a == p {
                    assert(r@[b] == before[b - 1]);
                } else {
                    assert(r@[a] == before[a - 1] && r@[b] == before[b - 1]);
                }
            }
            assert forall|x: int| 0 <= x < j + 1 implies #[trigger] occurs(r@, x) by {
                if x == j {
                    assert(r@[p as int] == x);
                } else {
                    assert(occurs(before, x));
                    let i = choose|i: int| 0 <= i < before.len() && #[trigger] before[i] == x;
                    if i < p {
                        assert(r@[i] == x);
                    } else {
                        assert(r@[i + 1] == x);
                    }
                }
            }
            assert forall|i: int| 0 <= i < r@.len() implies #[trigger] r@[i] < j + 1 by {
                if i < p {
                    assert(r@[i] == before[i]);
                } else if i > p {
                    assert(r@[i] == before[i - 1]);
                }
            }
        }
        j += 1;
    }
    r
}

} // verus!
