//! The savings of joining two customers into one route instead of serving
//! each from the depot: `d(i, 0) + d(0, j) - d(i, j)`.
use vstd::prelude::*;

verus! {

/// The saving of customers `i` and `j`: `dm[i][0] + dm[0][j] - dm[i][j]` for
/// two different customers, zero when either is the depot or `i == j`.
pub open spec fn saving(dm: Seq<Vec<i32>>, i: int, j: int) -> int {
    if 1 <= i && 1 <= j && i != j {
        dm[i]@[0] + dm[0]@[j] - dm[i]@[j]
    } else {
        0
    }
}

/// The matrix has at least `n` rows of at least `n` entries.
pub open spec fn covers(dm: Seq<Vec<i32>>, n: int) -> bool {
    &&& dm.len() >= n
    &&& forall|i: int| 0 <= i < n ==> #[trigger] dm[i]@.len() >= n
}

/// The `n` by `n` matrix of savings.
pub fn compute_savings_matrix(distance_matrix: &Vec<Vec<i32>>, num_nodes: usize) -> (savings: Vec<Vec<i64>>)
    requires
        covers(distance_matrix@, num_nodes as int),
    ensures
        savings@.len() == num_nodes,
        forall|i: int| 0 <= i < num_nodes ==> (#[trigger] savings@[i])@.len() == num_nodes,
        forall|i: int, j: int|
            0 <= i < num_nodes && 0 <= j < num_nodes ==> #[trigger] savings@[i]@[j] == saving(
                distance_matrix@,
                i,
                j,
            ),
{
    let ghost dm = distance_matrix@;
    let n = num_nodes;
    let mut savings_matrix: Vec<Vec<i64>> = Vec::new();
    let mut i: usize = 0;
    while i < n
        invariant
            dm == distance_matrix@,
            covers(dm, n as int),
            0 <= i <= n,
            savings_matrix@.len() == i,
            forall|a: int| 0 <= a < i ==> (#[trigger] savings_matrix@[a])@.len() == n,
            forall|a: int, b: int|
                0 <= a < i && 0 <= b < n ==> #[trigger] savings_matrix@[a]@[b] == saving(dm, a, b),
        decreases n - i,
    {
        let mut row: Vec<i64> = Vec::new();
        if i == 0 {
            let mut j: usize = 0;
            while j < n
                invariant
                    i == 0,
                    0 <= j <= n,
                    row@.len() == j,
                    forall|b: int| 0 <= b < j ==> #[trigger] row@[b] == saving(dm, i as int, b),
                decreases n - j,
            {
                row.push(0);
                j = j + 1;
            }
        } else {
            let dist_i0 = distance_matrix[i][0] as i64;
            let mut j: usize = 0;
            while j < n
                invariant
                    dm == distance_matrix@,
                    covers(dm, n as int),
                    1 <= i < n,
                    dist_i0 == dm[i as int]@[0],
                    0 <= j <= n,
                    row@.len() == j,
                    forall|b: int| 0 <= b < j ==> #[trigger] row@[b] == saving(dm, i as int, b),
                decreases n - j,
            {
                if j >= 1 && i != j {
                    let dist_0j = distance_matrix[0][j] as i64;
                    let dist_ij = distance_matrix[i][j] as i64;
                    row.push(dist_i0 + dist_0j - dist_ij);
                } else {
                    row.push(0);
                }
                j = j + 1;
            }
        }
        savings_matrix.push(row);
        i = i + 1;
    }
    savings_matrix
}

/// A symmetric distance matrix gives symmetric savings.
pub proof fn lemma_savings_symmetric(dm: Seq<Vec<i32>>, n: int, i: int, j: int)
    requires
        forall|a: int, b: int| 0 <= a < n && 0 <= b < n ==> #[trigger] dm[a]@[b] == dm[b]@[a],
        0 <= i < n,
        0 <= j < n,
    ensures
        saving(dm, i, j) == saving(dm, j, i),
{
    assert(dm[i]@[j] == dm[j]@[i]);
    assert(dm[i]@[0] == dm[0]@[i]);
    assert(dm[j]@[0] == dm[0]@[j]);
}

} // verus!
