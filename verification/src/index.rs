//! Row-major buffers: entries, rows, and the arithmetic of their positions.

use vstd::arithmetic::div_mod::*;
use vstd::arithmetic::mul::*;
use vstd::prelude::*;

verus! {

/// Entry `(b, f)` of a row-major buffer with `cols` columns.
pub open spec fn at(s: Seq<u32>, cols: int, b: int, f: int) -> u32 {
    s[b * cols + f]
}

/// Row `b` of a row-major buffer with `cols` columns.
pub open spec fn row(s: Seq<u32>, cols: int, b: int) -> Seq<u32> {
    s.subrange(b * cols, (b + 1) * cols)
}

/// Row `i` and column `j` of a matrix with `cols` columns are found again from
/// the position `i * cols + j`, which lies below `rows * cols`.
pub proof fn lemma_cell(rows: int, cols: int, i: int, j: int)
    requires
        0 <= i < rows,
        0 <= j < cols,
    ensures
        0 <= i * cols + j < rows * cols,
        i * cols + j < (i + 1) * cols <= rows * cols,
        0 <= i * cols,
        (i * cols + j) / cols == i,
        (i * cols + j) % cols == j,
{
    lemma_fundamental_div_mod_converse(i * cols + j, cols, i, j);
    lemma_mul_inequality(i + 1, rows, cols);
    lemma_mul_nonnegative(i, cols);
    lemma_mul_is_distributive_add_other_way(cols, i, 1);
}

/// A position of a matrix is its row times the row length plus its column.
pub proof fn lemma_position(rows: int, cols: int, p: int)
    requires
        0 <= p < rows * cols,
        0 <= cols,
    ensures
        0 < cols,
        0 <= p / cols < rows,
        0 <= p % cols < cols,
        (p / cols) * cols + p % cols == p,
{
    if cols == 0 {
        lemma_mul_by_zero_is_zero(rows);
    }
    lemma_fundamental_div_mod(p, cols);
    lemma_mul_is_commutative(cols, p / cols);
    lemma_div_pos_is_pos(p, cols);
    if p / cols >= rows {
        lemma_mul_inequality(rows, p / cols, cols);
    }
}

/// Row `i` of a matrix ends where row `i + 1` begins, inside the matrix.
pub proof fn lemma_row(rows: int, cols: int, i: int)
    requires
        0 <= i < rows,
        0 <= cols,
    ensures
        0 <= i * cols <= (i + 1) * cols <= rows * cols,
        (i + 1) * cols == i * cols + cols,
{
    lemma_mul_inequality(i + 1, rows, cols);
    lemma_mul_nonnegative(i, cols);
    lemma_mul_is_distributive_add_other_way(cols, i, 1);
}

/// Storing one entry changes that entry alone.
pub proof fn lemma_store(s: Seq<u32>, rows: int, cols: int, b: int, f: int, v: u32)
    requires
        s.len() == rows * cols,
        0 <= b < rows,
        0 <= f < cols,
    ensures
        0 <= b * cols + f < s.len(),
        forall|c: int, g: int|
            0 <= c < rows && 0 <= g < cols ==> #[trigger] at(s.update(b * cols + f, v), cols, c, g)
                == (if c == b && g == f {
                v
            } else {
                at(s, cols, c, g)
            }),
{
    lemma_cell(rows, cols, b, f);
    assert forall|c: int, g: int| 0 <= c < rows && 0 <= g < cols implies #[trigger] at(
        s.update(b * cols + f, v),
        cols,
        c,
        g,
    ) == (if c == b && g == f {
        v
    } else {
        at(s, cols, c, g)
    }) by {
        lemma_cell(rows, cols, c, g);
    }
}

/// Change one row of a row-major buffer.
pub fn store_row(s: &mut [u32], rows: usize, cols: usize, i: usize, new: &Vec<u32>)
    requires
        old(s)@.len() == rows * cols,
        i < rows,
        new@.len() == cols,
    ensures
        final(s)@.len() == old(s)@.len(),
        row(final(s)@, cols as int, i as int) == new@,
        forall|c: int|
            0 <= c < rows && c != i ==> #[trigger] row(final(s)@, cols as int, c) == row(
                old(s)@,
                cols as int,
                c,
            ),
{
    let ghost before = s@;
    let s_len: usize = s.len();
    proof {
        lemma_row(rows as int, cols as int, i as int);
    }
    let base: usize = i * cols;
    let mut j: usize = 0;
    while j < cols
        invariant
            s@.len() == s_len == before.len(),
            base + cols <= s_len,
            new@.len() == cols,
            j <= cols,
            forall|p: int|
                0 <= p < s_len ==> #[trigger] s@[p] == (if base <= p < base + j {
                    new@[p - base]
                } else {
                    before[p]
                }),
        decreases cols - j,
    {
        s[base + j] = new[j];
        j += 1;
    }
    proof {
        assert(row(s@, cols as int, i as int) =~= new@);
        assert forall|c: int| 0 <= c < rows && c != i implies #[trigger] row(s@, cols as int, c)
            == row(before, cols as int, c) by {
            lemma_row(rows as int, cols as int, c);
            if c < i {
                lemma_mul_inequality(c + 1, i as int, cols as int);
            } else {
                lemma_mul_inequality(i + 1, c, cols as int);
            }
            assert(row(s@, cols as int, c) =~= row(before, cols as int, c));
        }
    }
}

/// Buffers with the same rows are the same.
pub proof fn lemma_same_rows(a: Seq<u32>, b: Seq<u32>, rows: int, cols: int)
    requires
        0 <= rows,
        0 <= cols,
        a.len() == rows * cols,
        b.len() == rows * cols,
        forall|i: int| 0 <= i < rows ==> #[trigger] row(a, cols, i) == row(b, cols, i),
    ensures
        a == b,
{
    assert forall|p: int| 0 <= p < a.len() implies a[p] == b[p] by {
        lemma_position(rows, cols, p);
        let i = p / cols;
        lemma_row(rows, cols, i);
        assert(row(a, cols, i)[p % cols] == row(b, cols, i)[p % cols]);
    }
    assert(a =~= b);
}

} // verus!
