//! Picking the entries of a row with the smallest values, ties broken by
//! position: what sorting `(position, value)` pairs stably by value and
//! keeping the first `k` gives.
use vstd::prelude::*;

verus! {

/// Entry `a` comes before entry `b`: smaller value, or equal value and
/// smaller position.
pub open spec fn key_lt(row: Seq<i32>, a: int, b: int) -> bool {
    row[a] < row[b] || (row[a] == row[b] && a < b)
}

/// Position `j` is a position of the row other than `skip`.
pub open spec fn eligible(row: Seq<i32>, skip: int, j: int) -> bool {
    0 <= j < row.len() && j != skip
}

/// `picked` lists eligible positions in increasing `key_lt` order, and
/// every eligible position that comes before a listed one is listed: it is
/// an initial run of the eligible positions in `key_lt` order.
pub open spec fn ordered_prefix(row: Seq<i32>, skip: int, picked: Seq<usize>) -> bool {
    &&& forall|q: int| 0 <= q < picked.len() ==> eligible(row, skip, #[trigger] picked[q] as int)
    &&& forall|q1: int, q2: int|
        0 <= q1 < q2 < picked.len() ==> key_lt(row, #[trigger] picked[q1] as int, #[trigger] picked[q2] as int)
    &&& forall|j: int, q: int|
        eligible(row, skip, j) && 0 <= q < picked.len() && #[trigger] key_lt(row, j, picked[q] as int)
            ==> picked.contains(j as usize)
}

/// `picked` lists, in order, the first `k` eligible positions of the row by
/// `key_lt` (all of them when there are fewer than `k`).
pub open spec fn smallest_keys(row: Seq<i32>, skip: int, k: int, picked: Seq<usize>) -> bool {
    &&& picked.len() <= k
    &&& ordered_prefix(row, skip, picked)
    &&& picked.len() < k ==> forall|j: int| eligible(row, skip, j) ==> #[trigger] picked.contains(j as usize)
}

/// Tells whether entry `a` comes before entry `b`.
fn key_less(row: &Vec<i32>, a: usize, b: usize) -> (less: bool)
    requires
        a < row@.len(),
        b < row@.len(),
    ensures
        less == key_lt(row@, a as int, b as int),
{
    row[a] < row[b] || (row[a] == row[b] && a < b)
}

/// The first eligible position that comes after `after` (any eligible
/// position when `after` is `None`).
fn next_after(row: &Vec<i32>, skip: usize, after: Option<usize>) -> (next: Option<usize>)
    requires
        after matches Some(a) ==> a < row@.len(),
    ensures
        match next {
            Some(x) => {
                &&& eligible(row@, skip as int, x as int)
                &&& (after matches Some(a) ==> key_lt(row@, a as int, x as int))
                &&& forall|j: int|
                    eligible(row@, skip as int, j) && j != x && (after matches Some(a) ==> key_lt(
                        row@,
                        a as int,
                        j,
                    )) ==> key_lt(row@, x as int, j)
            },
            None => forall|j: int|
                eligible(row@, skip as int, j) ==> (after matches Some(a) && !key_lt(
                    row@,
                    a as int,
                    j,
                )),
        },
{
    let mut best: Option<usize> = None;
    let mut j: usize = 0;
    while j < row.len()
        invariant
            0 <= j <= row@.len(),
            after matches Some(a) ==> a < row@.len(),
            match best {
                Some(x) => {
                    &&& x < j
                    &&& eligible(row@, skip as int, x as int)
                    &&& (after matches Some(a) ==> key_lt(row@, a as int, x as int))
                    &&& forall|y: int|
                        0 <= y < j && eligible(row@, skip as int, y) && y != x && (after matches Some(
                            a,
                        ) ==> key_lt(row@, a as int, y)) ==> key_lt(row@, x as int, y)
                },
                None => forall|y: int|
                    0 <= y < j && eligible(row@, skip as int, y) ==> (after matches Some(a)
                        && !key_lt(row@, a as int, y)),
            },
        decreases row@.len() - j,
    {
        if j != skip {
            let above = match after {
                Some(a) => key_less(row, a, j),
                None => true,
            };
            if above {
                match best {
                    Some(x) => {
                        if key_less(row, j, x) {
                            best = Some(j);
                        }
                    },
                    None => {
                        best = Some(j);
                    },
                }
            }
        }
        j = j + 1;
    }
    best
}

/// The positions of the `k` smallest entries of `row` other than `skip`,
/// smallest first, ties broken by position.
pub fn k_smallest(row: &Vec<i32>, skip: usize, k: usize) -> (picked: Vec<usize>)
    ensures
        smallest_keys(row@, skip as int, k as int, picked@),
{
    let mut picked: Vec<usize> = Vec::new();
    while picked.len() < k
        invariant
            picked@.len() <= k,
            forall|q: int| 0 <= q < picked@.len() ==> eligible(row@, skip as int, #[trigger] picked@[q] as int),
            forall|q1: int, q2: int|
                0 <= q1 < q2 < picked@.len() ==> key_lt(
                    row@,
                    #[trigger] picked@[q1] as int,
                    #[trigger] picked@[q2] as int,
                ),
            forall|j: int|
                eligible(row@, skip as int, j) ==> (#[trigger] picked@.contains(j as usize) <==> (picked@.len()
                    > 0 && !key_lt(row@, picked@.last() as int, j))),
        decreases k - picked@.len(),
    {
        let after = if picked.len() == 0 { None } else { Some(picked[picked.len() - 1]) };
        let next = next_after(row, skip, after);
        match next {
            Some(m) => {
                let ghost old_picked = picked@;
                picked.push(m);
                proof {
                    assert(row.len() == row@.len());
                    assert forall|j: int|
                        eligible(row@, skip as int, j) implies (#[trigger] picked@.contains(j as usize) <==> (
                        picked@.len() > 0 && !key_lt(row@, picked@.last() as int, j))) by {
                        if j == m {
                            assert(picked@[picked@.len() - 1] == m);
                        } else {
                            if old_picked.contains(j as usize) {
                                let q = choose|q: int| 0 <= q < old_picked.len() && old_picked[q] == j as usize;
                                assert(picked@[q] == j as usize);
                            }
                            if picked@.contains(j as usize) {
                                let q = choose|q: int| 0 <= q < picked@.len() && picked@[q] == j as usize;
                                if q == old_picked.len() {
                                    assert(picked@[q] == m);
                                }
                                assert(q < old_picked.len());
                                assert(old_picked[q] == j as usize);
                                assert(old_picked.contains(j as usize));
                            }
                        }
                    }
                    assert forall|q1: int, q2: int|
                        0 <= q1 < q2 < picked@.len() implies key_lt(
                        row@,
                        #[trigger] picked@[q1] as int,
                        #[trigger] picked@[q2] as int,
                    ) by {
                        if q2 == picked@.len() - 1 && q1 < q2 {
                            if q1 < old_picked.len() - 1 {
                                assert(key_lt(row@, old_picked[q1] as int, old_picked.last() as int));
                            }
                        }
                    }
                }
            },
            None => {
                proof {
                    assert forall|j: int, q: int|
                        eligible(row@, skip as int, j) && 0 <= q < picked@.len() && #[trigger] key_lt(row@, j, picked@[q] as int) implies picked@.contains(j as usize) by {
                        if q < picked@.len() - 1 {
                            assert(key_lt(row@, picked@[q] as int, picked@.last() as int));
                        }
                    }
                }
                return picked;
            },
        }
    }
    proof {
        assert forall|j: int, q: int|
            eligible(row@, skip as int, j) && 0 <= q < picked@.len() && #[trigger] key_lt(row@, j, picked@[q] as int) implies picked@.contains(j as usize) by {
            if q < picked@.len() - 1 {
                assert(key_lt(row@, picked@[q] as int, picked@.last() as int));
            }
        }
    }
    picked
}

/// Two lists of first positions agree up to the shorter one.
proof fn lemma_ordered_prefixes_agree(row: Seq<i32>, skip: int, p1: Seq<usize>, p2: Seq<usize>, q: int)
    requires
        ordered_prefix(row, skip, p1),
        ordered_prefix(row, skip, p2),
        0 <= q < p1.len(),
        q < p2.len(),
    ensures
        forall|u: int| 0 <= u <= q ==> p1[u] == p2[u],
    decreases q,
{
    if q > 0 {
        lemma_ordered_prefixes_agree(row, skip, p1, p2, q - 1);
    }
    let x = p1[q];
    let y = p2[q];
    if x != y {
        assert(eligible(row, skip, x as int));
        assert(eligible(row, skip, y as int));
        if key_lt(row, x as int, y as int) {
            assert(p2.contains(x));
            let q2 = choose|u: int| 0 <= u < p2.len() && p2[u] == x;
            if q2 < q {
                assert(p1[q2] == x);
                assert(key_lt(row, p1[q2] as int, p1[q] as int));
            } else {
                assert(q < q2);
                assert(key_lt(row, p2[q] as int, p2[q2] as int));
            }
        } else {
            assert(key_lt(row, y as int, x as int));
            assert(p1.contains(y));
            let q1 = choose|u: int| 0 <= u < p1.len() && p1[u] == y;
            if q1 < q {
                assert(p2[q1] == y);
                assert(key_lt(row, p2[q1] as int, p2[q] as int));
            } else {
                assert(q < q1);
                assert(key_lt(row, p1[q] as int, p1[q1] as int));
            }
        }
    }
}

/// The `k` smallest entries are determined: two lists that both meet
/// `smallest_keys` for the same row, skipped position and `k` are equal.
pub proof fn lemma_smallest_keys_unique(row: Seq<i32>, skip: int, k: int, p1: Seq<usize>, p2: Seq<usize>)
    requires
        smallest_keys(row, skip, k, p1),
        smallest_keys(row, skip, k, p2),
    ensures
        p1 == p2,
{
    let m = if p1.len() <= p2.len() { p1.len() as int } else { p2.len() as int };
    if m > 0 {
        lemma_ordered_prefixes_agree(row, skip, p1, p2, m - 1);
    }
    if p1.len() < p2.len() {
        let y = p2[m];
        assert(eligible(row, skip, y as int));
        assert(p1.len() < k);
        assert(p1.contains((y as int) as usize));
        let u = choose|u: int| 0 <= u < p1.len() && p1[u] == y;
        assert(p2[u] == y);
        assert(key_lt(row, p2[u] as int, p2[m] as int));
    } else if p2.len() < p1.len() {
        let y = p1[m];
        assert(eligible(row, skip, y as int));
        assert(p2.len() < k);
        assert(p2.contains((y as int) as usize));
        let u = choose|u: int| 0 <= u < p2.len() && p2[u] == y;
        assert(p1[u] == y);
        assert(key_lt(row, p1[u] as int, p1[m] as int));
    }
    assert(p1 =~= p2);
}

} // verus!
