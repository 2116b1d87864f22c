//! Index transpose for the outer two dimensions of a ragged 3-D layout:
//! the pipeline pivots between `[shard][query][...]` and `[query][shard][...]`
//! views with it.

use vstd::prelude::*;

verus! {

/// Every row has length `cols`.
pub open spec fn rectangular<T>(m: Seq<Seq<T>>, cols: nat) -> bool {
    forall|i: int| 0 <= i < m.len() ==> (#[trigger] m[i]).len() == cols
}

/// The transpose of a rectangular `rows x cols` matrix of sequences.
pub open spec fn transposed<T>(m: Seq<Seq<T>>, rows: nat, cols: nat) -> Seq<Seq<T>> {
    Seq::new(cols, |j: int| Seq::new(rows, |i: int| m[i][j]))
}

/// Transposing twice gives the original matrix back.
pub proof fn lemma_transpose_involutive<T>(m: Seq<Seq<T>>, cols: nat)
    requires
        rectangular(m, cols),
    ensures
        transposed(transposed(m, m.len(), cols), cols, m.len()) == m,
{
    let t = transposed(m, m.len(), cols);
    let tt = transposed(t, cols, m.len());
    assert forall|i: int| 0 <= i < m.len() implies tt[i] == m[i] by {
        assert(tt[i] =~= m[i]);
    }
    assert(tt =~= m);
}

/// Converts `[a][b][...]` to `[b][a][...]` by moving elements; the input must
/// be rectangular in its outer two dimensions. An empty input transposes to an
/// empty output.
pub fn transpose<T>(m: Vec<Vec<T>>, cols: usize) -> (r: Vec<Vec<T>>)
    requires
        rectangular(m@.map_values(|row: Vec<T>| row@), cols as nat),
    ensures
        r@.map_values(|row: Vec<T>| row@) == transposed(
            m@.map_values(|row: Vec<T>| row@),
            m@.len(),
            cols as nat,
        ),
        r@.len() == cols,
        forall|j: int| 0 <= j < cols ==> (#[trigger] r@[j])@.len() == m@.len(),
        forall|i: int, j: int|
            0 <= i < m@.len() && 0 <= j < cols ==> r@[j]@[i] == m@[i]@[j],
{
    let ghost orig = m@.map_values(|row: Vec<T>| row@);
    let rows = m.len();
    let mut m = m;
    let mut out: Vec<Vec<T>> = Vec::new();
    let mut j: usize = 0;
    while j < cols
        invariant
            0 <= j <= cols,
            m@.len() == rows == orig.len(),
            rectangular(orig, cols as nat),
            // Each remaining row still holds its not-yet-moved suffix.
            forall|i: int| 0 <= i < rows ==> (#[trigger] m@[i])@ == orig[i].skip(j as int),
            out@.len() == j,
            forall|jj: int|
                0 <= jj < j ==> (#[trigger] out@[jj])@ == Seq::new(
                    rows as nat,
                    |i: int| orig[i][jj],
                ),
        decreases cols - j,
    {
        let mut col: Vec<T> = Vec::new();
        let mut i: usize = 0;
        while i < rows
            invariant
                0 <= i <= rows,
                0 <= j < cols,
                m@.len() == rows == orig.len(),
                rectangular(orig, cols as nat),
                col@ == Seq::new(i as nat, |k: int| orig[k][j as int]),
                forall|k: int| 0 <= k < i ==> (#[trigger] m@[k])@ == orig[k].skip(j + 1),
                forall|k: int| i <= k < rows ==> (#[trigger] m@[k])@ == orig[k].skip(j as int),
            decreases rows - i,
        {
            let row = &mut m[i];
            assert(row@ == orig[i as int].skip(j as int));
            let x = row.remove(0);
            assert(orig[i as int].skip(j as int).len() > 0);
            assert(x == orig[i as int][j as int]);
            assert(row@ =~= orig[i as int].skip(j + 1));
            col.push(x);
            assert(col@ =~= Seq::new((i + 1) as nat, |k: int| orig[k][j as int]));
            i += 1;
        }
        out.push(col);
        j += 1;
    }
    proof {
        let rv = out@.map_values(|row: Vec<T>| row@);
        assert(rv =~= transposed(orig, orig.len(), cols as nat));
    }
    out
}

} // verus!
