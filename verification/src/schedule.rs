use vstd::prelude::*;

use crate::coords::IVec3;
use crate::pos_map::{lemma_place_of, place_of};

verus! {

/// What candidates for a task are ordered by: the priority class (lower
/// first), the squared horizontal distance from the center, and the
/// vertical distance.
pub type SortKey = (u8, u128, u32);

/// `a` comes before `b` in the order of keys.
pub open spec fn key_less(a: SortKey, b: SortKey) -> bool {
    ||| a.0 < b.0
    ||| (a.0 == b.0 && a.1 < b.1)
    ||| (a.0 == b.0 && a.1 == b.1 && a.2 < b.2)
}

/// Candidate `i` comes before candidate `j`: its key is smaller, or the
/// keys are equal and it stands earlier in the list.
pub open spec fn ranks_before(keys: Seq<SortKey>, i: int, j: int) -> bool {
    key_less(keys[i], keys[j]) || (keys[i] == keys[j] && i < j)
}

/// `picked` holds the eligible candidates that come first, in their order,
/// up to `count` of them: it is ordered, every eligible candidate that was
/// not picked comes after all that were, and where fewer than `count` were
/// picked, every eligible candidate was.
pub open spec fn is_selection(
    keys: Seq<SortKey>,
    eligible: Seq<bool>,
    count: int,
    picked: Seq<usize>,
) -> bool {
    &&& picked.len() <= count
    &&& forall|k: int| 0 <= k < picked.len() ==> (#[trigger] picked[k]) < keys.len() && eligible[picked[k] as int]
    &&& forall|a: int, b: int|
        0 <= a < b < picked.len() ==> ranks_before(keys, #[trigger] picked[a] as int, #[trigger] picked[b] as int)
    &&& forall|j: int, k: int|
        0 <= j < keys.len() && eligible[j] && 0 <= k < picked.len() && !picked.contains(j as usize)
            ==> #[trigger] ranks_before(keys, picked[k] as int, j)
    &&& picked.len() < count ==> forall|j: int|
        0 <= j < keys.len() && #[trigger] eligible[j] ==> picked.contains(j as usize)
}

fn key_before(a: SortKey, b: SortKey) -> (less: bool)
    ensures
        less == key_less(a, b),
{
    a.0 < b.0 || (a.0 == b.0 && a.1 < b.1) || (a.0 == b.0 && a.1 == b.1 && a.2 < b.2)
}

fn key_same(a: SortKey, b: SortKey) -> (same: bool)
    ensures
        same == (a == b),
{
    a.0 == b.0 && a.1 == b.1 && a.2 == b.2
}

/// Picks the eligible candidates that come first in the order of their
/// keys, up to `count` of them. Candidates with equal keys keep the order
/// of the list.
pub fn select_first(keys: &Vec<SortKey>, eligible: &Vec<bool>, count: usize) -> (picked: Vec<usize>)
    requires
        keys@.len() == eligible@.len(),
    ensures
        is_selection(keys@, eligible@, count as int, picked@),
{
    let n = keys.len();
    let mut picked: Vec<usize> = Vec::new();
    let mut exhausted = false;
    while picked.len() < count && !exhausted
        invariant
            n == keys@.len(),
            n == eligible@.len(),
            picked@.len() <= count,
            forall|k: int| 0 <= k < picked@.len() ==> (#[trigger] picked@[k]) < n && eligible@[picked@[k] as int],
            forall|a: int, b: int|
                0 <= a < b < picked@.len() ==> ranks_before(
                    keys@,
                    #[trigger] picked@[a] as int,
                    #[trigger] picked@[b] as int,
                ),
            forall|j: int|
                0 <= j < n && #[trigger] eligible@[j] && picked@.len() > 0 ==> picked@.contains(j as usize)
                    || ranks_before(keys@, picked@.last() as int, j),
            exhausted ==> forall|j: int|
                0 <= j < n && #[trigger] eligible@[j] ==> picked@.contains(j as usize),
        decreases count - picked@.len() + (if exhausted { 0int } else { 1int }),
    {
        let mut best: Option<usize> = None;
        let mut j: usize = 0;
        while j < n
            invariant
                j <= n,
                n == keys@.len(),
                n == eligible@.len(),
                forall|k: int| 0 <= k < picked@.len() ==> (#[trigger] picked@[k]) < n,
                match best {
                    Some(b) => {
                        &&& b < j
                        &&& eligible@[b as int]
                        &&& picked@.len() > 0 ==> ranks_before(keys@, picked@.last() as int, b as int)
                        &&& forall|i: int|
                            0 <= i < j && #[trigger] eligible@[i] && (picked@.len() > 0
                                ==> ranks_before(keys@, picked@.last() as int, i)) ==> i == b
                                || ranks_before(keys@, b as int, i)
                    },
                    None => forall|i: int|
                        0 <= i < j && #[trigger] eligible@[i] ==> picked@.len() > 0 && !ranks_before(
                            keys@,
                            picked@.last() as int,
                            i,
                        ),
                },
            decreases n - j,
        {
            if eligible[j] {
                let after_last = if picked.len() > 0 {
                    let last = picked[picked.len() - 1];
                    key_before(keys[last], keys[j]) || (key_same(keys[last], keys[j]) && last < j)
                } else {
                    true
                };
                if after_last {
                    match best {
                        Some(b) => {
                            if key_before(keys[j], keys[b]) {
                                best = Some(j);
                            }
                        },
                        None => {
                            best = Some(j);
                        },
                    }
                }
            }
            j += 1;
        }
        match best {
            Some(b) => {
                let ghost before = picked@;
                picked.push(b);
                proof {
                    assert forall|a: int, c: int| 0 <= a < c < picked@.len() implies ranks_before(
                        keys@,
                        #[trigger] picked@[a] as int,
                        #[trigger] picked@[c] as int,
                    ) by {
                        if c == before.len() && a < before.len() - 1 {
                            assert(ranks_before(
                                keys@,
                                before[a] as int,
                                before[before.len() - 1] as int,
                            ));
                        }
                    }
                    assert forall|i: int|
                        0 <= i < n && #[trigger] eligible@[i] && picked@.len() > 0 implies picked@.contains(
                        i as usize,
                    ) || ranks_before(keys@, picked@.last() as int, i) by {
                        if before.len() > 0 && before.contains(i as usize) {
                            let k = choose|k: int| 0 <= k < before.len() && before[k] == i as usize;
                            assert(picked@[k] == i as usize);
                        } else if i == b {
                            assert(picked@[before.len() as int] == i as usize);
                        }
                    }
                }
            },
            None => {
                exhausted = true;
                proof {
                    assert forall|i: int| 0 <= i < n && #[trigger] eligible@[i] implies picked@.contains(
                        i as usize,
                    ) by {}
                }
            },
        }
    }
    proof {
        assert forall|j: int, k: int|
            0 <= j < n && eligible@[j] && 0 <= k < picked@.len() && !picked@.contains(
                j as usize,
            ) implies #[trigger] ranks_before(keys@, picked@[k] as int, j) by {
            assert(ranks_before(keys@, picked@.last() as int, j));
            if k < picked@.len() - 1 {
                assert(ranks_before(keys@, picked@[k] as int, picked@[picked@.len() - 1] as int));
            }
        }
    }
    picked
}

/// `picked` holds the eligible positions of `base` that come first in the
/// order of their keys, up to `count` of them, where positions with equal
/// keys keep the order of `base`: it is ordered, every eligible position
/// that was not picked comes after all that were, and where fewer than
/// `count` were picked, every eligible position was.
pub open spec fn is_pick(
    base: Seq<IVec3>,
    keys: Seq<SortKey>,
    eligible: Seq<bool>,
    count: int,
    picked: Seq<IVec3>,
) -> bool {
    &&& picked.len() <= count
    &&& picked.no_duplicates()
    &&& forall|k: int|
        0 <= k < picked.len() ==> base.contains(#[trigger] picked[k]) && eligible[place_of(
            base,
            picked[k],
        )]
    &&& forall|a: int, b: int|
        0 <= a < b < picked.len() ==> #[trigger] ranks_before(
            keys,
            place_of(base, picked[a]),
            place_of(base, picked[b]),
        )
    &&& forall|i: int, k: int|
        0 <= i < base.len() && eligible[i] && !picked.contains(base[i]) && 0 <= k < picked.len()
            ==> #[trigger] ranks_before(keys, place_of(base, picked[k]), i)
    &&& picked.len() < count ==> forall|i: int|
        0 <= i < base.len() && #[trigger] eligible[i] ==> picked.contains(base[i])
}

/// Picks the eligible positions that come first in the order of their
/// keys, up to `count` of them. Positions with equal keys keep the order of
/// the list.
pub fn pick_first(base: &Vec<IVec3>, keys: &Vec<SortKey>, eligible: &Vec<bool>, count: usize) -> (picked:
    Vec<IVec3>)
    requires
        base@.no_duplicates(),
        keys@.len() == base@.len(),
        eligible@.len() == base@.len(),
    ensures
        is_pick(base@, keys@, eligible@, count as int, picked@),
{
    let indices = select_first(keys, eligible, count);
    let n = base.len();
    let mut picked: Vec<IVec3> = Vec::new();
    let mut k: usize = 0;
    while k < indices.len()
        invariant
            k <= indices@.len(),
            base@.no_duplicates(),
            keys@.len() == base@.len(),
            eligible@.len() == base@.len(),
            is_selection(keys@, eligible@, count as int, indices@),
            picked@.len() == k,
            forall|i: int| 0 <= i < k ==> #[trigger] picked@[i] == base@[indices@[i] as int],
        decreases indices@.len() - k,
    {
        picked.push(base[indices[k]]);
        k += 1;
    }
    proof {
        assert(base@.len() == n);
        assert forall|i: int| 0 <= i < picked@.len() implies base@.contains(#[trigger] picked@[i])
            && place_of(base@, picked@[i]) == indices@[i] by {
            lemma_place_of(base@, indices@[i] as int);
        }
        assert forall|a: int, b: int| 0 <= a < b < picked@.len() implies picked@[a] != picked@[b] by {
            assert(ranks_before(keys@, indices@[a] as int, indices@[b] as int));
        }
        assert forall|a: int, b: int| 0 <= a < b < picked@.len() implies #[trigger] ranks_before(
            keys@,
            place_of(base@, picked@[a]),
            place_of(base@, picked@[b]),
        ) by {
            assert(ranks_before(keys@, indices@[a] as int, indices@[b] as int));
        }
        assert forall|i: int| 0 <= i < base@.len() && indices@.contains(
            i as usize,
        ) implies picked@.contains(#[trigger] base@[i]) by {
            let k = choose|k: int| 0 <= k < indices@.len() && indices@[k] == i as usize;
            assert((i as usize) as int == i);
            assert(picked@[k] == base@[indices@[k] as int]);
        }
        assert forall|i: int, k: int|
            0 <= i < base@.len() && eligible@[i] && !picked@.contains(base@[i]) && 0 <= k
                < picked@.len() implies #[trigger] ranks_before(
            keys@,
            place_of(base@, picked@[k]),
            i,
        ) by {
            assert(!indices@.contains(i as usize));
            assert(ranks_before(keys@, indices@[k] as int, i));
        }
        if picked@.len() < count {
            assert forall|i: int| 0 <= i < base@.len() && #[trigger] eligible@[i] implies picked@.contains(
                base@[i],
            ) by {
                assert(indices@.contains(i as usize));
            }
        }
    }
    picked
}

} // verus!
