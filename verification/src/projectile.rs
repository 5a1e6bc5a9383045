use vstd::prelude::*;

verus! {

/// `hit` is the first index at which `row` holds, or `None` when it holds
/// nowhere.
pub open spec fn is_first_hit(row: Seq<bool>, hit: Option<usize>) -> bool {
    match hit {
        Some(k) => k < row.len() && row[k as int] && forall|j: int| 0 <= j < k ==> !row[j],
        None => forall|j: int| 0 <= j < row.len() ==> !row[j],
    }
}

/// The first index at which `in_range` holds: the one enemy that a
/// projectile hits when several are within reach, or the first enemy found
/// touching the bee.
pub fn first_hit(in_range: &Vec<bool>) -> (hit: Option<usize>)
    ensures
        is_first_hit(in_range@, hit),
{
    let mut i: usize = 0;
    while i < in_range.len()
        invariant
            0 <= i <= in_range@.len(),
            forall|j: int| 0 <= j < i ==> !in_range@[j],
        decreases in_range@.len() - i,
    {
        if in_range[i] {
            return Some(i);
        }
        i += 1;
    }
    None
}

/// Some projectile among the first `upto` removes enemy `e`.
pub open spec fn hit_by_some(hits: Seq<Option<usize>>, e: usize, upto: int) -> bool {
    exists|q: int| 0 <= q < upto && hits[q] == Some(e)
}

/// The outcome of one frame of projectile hits.
pub struct HitResolution {
    /// For each projectile, the enemy it hits (and removes), if any.
    pub hits: Vec<Option<usize>>,
    /// The enemies defeated this frame, each once, in increasing index order.
    pub defeated: Vec<usize>,
}

/// Resolves the hits of one frame: `in_range[p][e]` says whether enemy `e`
/// is within reach of projectile `p`.  Each projectile hits the first enemy
/// within its reach and is spent; every enemy hit by at least one projectile
/// is defeated, once, however many projectiles hit it.
pub fn resolve_hits(in_range: &Vec<Vec<bool>>) -> (r: HitResolution)
    ensures
        r.hits@.len() == in_range@.len(),
        forall|p: int| 0 <= p < in_range@.len() ==> is_first_hit(in_range@[p]@, #[trigger] r.hits@[p]),
        forall|i: int, j: int| 0 <= i < j < r.defeated@.len() ==> r.defeated@[i] < r.defeated@[j],
        forall|e: usize| r.defeated@.contains(e) <==> hit_by_some(r.hits@, e, r.hits@.len() as int),
{
    let mut hits: Vec<Option<usize>> = Vec::new();
    // One past the largest enemy index hit so far.
    let mut bound: usize = 0;
    let mut p: usize = 0;
    while p < in_range.len()
        invariant
            0 <= p <= in_range@.len(),
            hits@.len() == p,
            forall|q: int| 0 <= q < p ==> is_first_hit(in_range@[q]@, #[trigger] hits@[q]),
            forall|q: int| 0 <= q < p ==> (#[trigger] hits@[q] matches Some(k) ==> k < bound),
        decreases in_range@.len() - p,
    {
        let row_len = in_range[p].len();
        let h = first_hit(&in_range[p]);
        if let Some(k) = h {
            // `k < row_len <= usize::MAX`, so `k + 1` does not overflow.
            assert(k < row_len);
            if k >= bound {
                bound = k + 1;
            }
        }
        hits.push(h);
        p += 1;
    }

    let mut taken: Vec<bool> = Vec::new();
    while taken.len() < bound
        invariant
            taken@.len() <= bound,
            forall|e: int| 0 <= e < taken@.len() ==> !taken@[e],
        decreases bound - taken@.len(),
    {
        taken.push(false);
    }

    let mut q: usize = 0;
    while q < hits.len()
        invariant
            0 <= q <= hits@.len(),
            taken@.len() == bound,
            forall|r: int| 0 <= r < hits@.len() ==> (#[trigger] hits@[r] matches Some(k) ==> k < bound),
            forall|e: int|
                0 <= e < bound ==> (#[trigger] taken@[e] <==> hit_by_some(hits@, e as usize, q as int)),
        decreases hits@.len() - q,
    {
        if let Some(k) = hits[q] {
            taken.set(k, true);
            proof {
                assert forall|e: int| 0 <= e < bound implies (#[trigger] taken@[e] <==> hit_by_some(
                    hits@,
                    e as usize,
                    q + 1,
                )) by {
                    if e == k {
                        assert(hits@[q as int] == Some(k));
                    } else if hit_by_some(hits@, e as usize, q + 1) {
                        let w = choose|w: int| 0 <= w < q + 1 && hits@[w] == Some(e as usize);
                        assert(w != q);
                    }
                }
            }
        } else {
            proof {
                assert forall|e: int| 0 <= e < bound implies (#[trigger] taken@[e] <==> hit_by_some(
                    hits@,
                    e as usize,
                    q + 1,
                )) by {
                    if hit_by_some(hits@, e as usize, q + 1) {
                        let w = choose|w: int| 0 <= w < q + 1 && hits@[w] == Some(e as usize);
                        assert(w != q);
                    }
                }
            }
        }
        q += 1;
    }

    let mut defeated: Vec<usize> = Vec::new();
    let mut e: usize = 0;
    while e < bound
        invariant
            0 <= e <= bound,
            taken@.len() == bound,
            forall|i: int, j: int| 0 <= i < j < defeated@.len() ==> defeated@[i] < defeated@[j],
            forall|i: int| 0 <= i < defeated@.len() ==> #[trigger] defeated@[i] < e,
            forall|x: usize| defeated@.contains(x) <==> (x < e && taken@[x as int]),
        decreases bound - e,
    {
        if taken[e] {
            let ghost before = defeated@;
            defeated.push(e);
            proof {
                assert forall|x: usize| defeated@.contains(x) <==> (x < e + 1 && taken@[x as int]) by {
                    if x == e {
                        assert(defeated@[before.len() as int] == e);
                    }
                    if defeated@.contains(x) && x != e {
                        let i = choose|i: int| 0 <= i < defeated@.len() && defeated@[i] == x;
                        assert(i < before.len());
                        assert(before[i] == x);
                    }
                    if x < e && taken@[x as int] {
                        assert(before.contains(x));
                        let i = choose|i: int| 0 <= i < before.len() && before[i] == x;
                        assert(defeated@[i] == x);
                    }
                }
            }
        } else {
            proof {
                assert forall|x: usize| defeated@.contains(x) <==> (x < e + 1 && taken@[x as int]) by {
                    if defeated@.contains(x) {
                        let i = choose|i: int| 0 <= i < defeated@.len() && defeated@[i] == x;
                    }
                }
            }
        }
        e += 1;
    }
    proof {
        assert forall|x: usize| defeated@.contains(x) <==> hit_by_some(hits@, x, hits@.len() as int) by {
            if hit_by_some(hits@, x, hits@.len() as int) {
                let w = choose|w: int| 0 <= w < hits@.len() && hits@[w] == Some(x);
                assert(hits@[w] matches Some(k) ==> k < bound);
            }
        }
    }
    HitResolution { hits, defeated }
}

} // verus!
