//! Square integer matrices held as vectors of rows, with their mathematical
//! view as a sequence of sequences of unbounded integers.
use vstd::prelude::*;

verus! {

/// Mathematical view of a row.
pub open spec fn row_view(row: Vec<i64>) -> Seq<int> {
    row@.map_values(|x: i64| x as int)
}

/// Mathematical view of a matrix.
pub open spec fn mat_view(m: Vec<Vec<i64>>) -> Seq<Seq<int>> {
    m@.map_values(|row: Vec<i64>| row_view(row))
}

/// The row is `n` long and every entry lies in `[0, bound]`.
pub open spec fn row_wf(row: Seq<int>, n: nat, bound: int) -> bool {
    &&& row.len() == n
    &&& forall|j: int| 0 <= j < n ==> 0 <= #[trigger] row[j] <= bound
}

/// The matrix is square of side `n` and every entry lies in `[0, bound]`.
pub open spec fn mat_wf(m: Seq<Seq<int>>, n: nat, bound: int) -> bool {
    &&& m.len() == n
    &&& forall|i: int| 0 <= i < n ==> row_wf(#[trigger] m[i], n, bound)
}

/// Read one entry.
pub fn mat_get(m: &Vec<Vec<i64>>, i: usize, j: usize) -> (r: i64)
    requires
        i < mat_view(*m).len(),
        j < mat_view(*m)[i as int].len(),
    ensures
        r == mat_view(*m)[i as int][j as int],
{
    m[i][j]
}

/// Replace one entry, leaving the rest of the matrix as it was.
pub fn mat_set(m: &mut Vec<Vec<i64>>, i: usize, j: usize, v: i64)
    requires
        i < mat_view(*old(m)).len(),
        j < mat_view(*old(m))[i as int].len(),
    ensures
        mat_view(*final(m)) == mat_view(*old(m)).update(
            i as int,
            mat_view(*old(m))[i as int].update(j as int, v as int),
        ),
{
    let ghost m0 = *m;
    let row = &mut m[i];
    row.set(j, v);
    proof {
        assert(row_view(m@[i as int]) =~= row_view(m0@[i as int]).update(j as int, v as int));
        assert(mat_view(*m) =~= mat_view(m0).update(
            i as int,
            row_view(m0@[i as int]).update(j as int, v as int),
        ));
    }
}

/// A square matrix of zeroes.
pub fn mat_zero(n: usize) -> (m: Vec<Vec<i64>>)
    ensures
        mat_view(m) =~~= Seq::new(n as nat, |i: int| Seq::new(n as nat, |j: int| 0int)),
        mat_wf(mat_view(m), n as nat, 0),
{
    let mut m: Vec<Vec<i64>> = Vec::new();
    let mut i: usize = 0;
    while i < n
        invariant
            i <= n,
            m@.len() == i,
            forall|k: int| 0 <= k < i ==> row_view(#[trigger] m@[k]) =~= Seq::new(
                n as nat,
                |j: int| 0int,
            ),
        decreases n - i,
    {
        let mut row: Vec<i64> = Vec::new();
        let mut j: usize = 0;
        while j < n
            invariant
                j <= n,
                row@.len() == j,
                forall|k: int| 0 <= k < j ==> row@[k] == 0i64,
            decreases n - j,
        {
            row.push(0);
            j = j + 1;
        }
        proof {
            assert(row_view(row) =~= Seq::new(n as nat, |j: int| 0int));
        }
        m.push(row);
        i = i + 1;
    }
    proof {
        assert(mat_view(m) =~~= Seq::new(n as nat, |i: int| Seq::new(n as nat, |j: int| 0int)));
    }
    m
}

} // verus!
