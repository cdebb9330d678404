use vstd::prelude::*;

use crate::grid::Grid;
use crate::model::{
    cell, column_occupied, cropped, first_column_from, first_set, fits_window, leading_cols_of,
    leading_rows_of, lemma_first_column_from, lemma_first_set, lemma_index_in_grid,
    lemma_occupied_bounds, lemma_padded_cell, lemma_row_col, lemma_shifted_cell, lemma_split,
    moved_top_left, nudged, occupied, padded, rotated, rotations_of, shifted,
};

verus! {

/// Flat index of row `i`, column `j` in a grid of side `n`.
pub(crate) fn index(n: usize, i: usize, j: usize) -> (r: usize)
    requires
        i * n + j <= usize::MAX,
    ensures
        r == i * n + j,
{
    i * n + j
}

/// Embeds the `side_length`-sided grid in one two cells wider, with an empty
/// border on every side.
pub fn pad_all_sides(bitvec: Grid, side_length: usize) -> (r: Grid)
    requires
        bitvec@.len() == side_length * side_length,
        8 * ((side_length + 2) * (side_length + 2)) <= usize::MAX,
    ensures
        r@ == padded(bitvec@, side_length as int),
{
    let s = side_length;
    proof {
        assert(s + 2 <= (s + 2) * (s + 2)) by (nonlinear_arith);
    }
    let w = s + 2;
    let ghost g = bitvec@;
    let mut r = Grid::zeros(w * w);
    let mut i: usize = 1;
    while i < w - 1
        invariant
            1 <= i <= w - 1,
            w == s + 2,
            w * w <= usize::MAX,
            g == bitvec@,
            g.len() == s * s,
            r@.len() == w * w,
            forall|k: int|
                0 <= k < w * w ==> #[trigger] r@[k] == if k / (w as int) < i {
                    padded(g, s as int)[k]
                } else {
                    false
                },
        decreases w - 1 - i,
    {
        proof {
            lemma_index_in_grid(i as int, 1, w as int);
            lemma_index_in_grid(i as int, (s + 1) as int, w as int);
            lemma_index_in_grid((i - 1) as int, (s - 1) as int, s as int);
            assert((i - 1) * s + s <= s * s) by (nonlinear_arith)
                requires
                    1 <= i <= s,
            ;
            assert(s * s <= w * w) by (nonlinear_arith)
                requires
                    w == s + 2,
            ;
        }
        let at = index(w, i, 1);
        let from = index(s, i - 1, 0);
        r.or_range(at, &bitvec, from, s);
        proof {
            assert forall|k: int| 0 <= k < w * w implies #[trigger] r@[k] == if k / (w as int) < i
                + 1 {
                padded(g, s as int)[k]
            } else {
                false
            } by {
                lemma_split(k, w as int);
                let row = k / (w as int);
                let col = k % (w as int);
                if row == i {
                    lemma_row_col(k, w as int, i as int);
                    assert(k - at + from == (i - 1) * s + (col - 1));
                }
                if row < i {
                    assert(k < at) by (nonlinear_arith)
                        requires
                            row < i,
                            k == row * w + col,
                            col < w,
                            at == i * w + 1,
                    ;
                }
                if row > i {
                    assert(k >= at + s) by (nonlinear_arith)
                        requires
                            row > i,
                            k == row * w + col,
                            col >= 0,
                            at == i * w + 1,
                            w == s + 2,
                    ;
                }
            }
        }
        i = i + 1;
    }
    proof {
        assert forall|k: int| 0 <= k < w * w implies r@[k] == padded(g, s as int)[k] by {
            lemma_split(k, w as int);
            if k / (w as int) >= i {
                assert(k / (w as int) == w - 1);
            }
        }
        assert(r@ =~= padded(g, s as int));
    }
    r
}

/// Turns the grid a quarter: cell (`i`, `j`) of the result is cell
/// (`j`, `side_length - 1 - i`) of `b`.
pub fn rotate90(b: &Grid, side_length: usize) -> (r: Grid)
    requires
        b@.len() == side_length * side_length,
    ensures
        r@ == rotated(b@, side_length as int),
{
    let s = side_length;
    let n = b.len();
    let ghost g = b@;
    let mut out = Grid::zeros(n);
    let mut i: usize = 0;
    while i < s
        invariant
            0 <= i <= s,
            n == s * s,
            g == b@,
            g.len() == n,
            out@.len() == n,
            forall|k: int|
                0 <= k < n ==> #[trigger] out@[k] == if k / (s as int) < i {
                    rotated(g, s as int)[k]
                } else {
                    false
                },
        decreases s - i,
    {
        let mut j: usize = 0;
        while j < s
            invariant
                0 <= i < s,
                0 <= j <= s,
                n == s * s,
                g == b@,
                g.len() == n,
                out@.len() == n,
                forall|k: int|
                    0 <= k < n ==> #[trigger] out@[k] == if k / (s as int) < i || (k / (s as int)
                        == i && k % (s as int) < j) {
                        rotated(g, s as int)[k]
                    } else {
                        false
                    },
            decreases s - j,
        {
            proof {
                lemma_index_in_grid(i as int, j as int, s as int);
                lemma_index_in_grid(j as int, (s - i - 1) as int, s as int);
            }
            let idx_out = index(s, i, j);
            let idx_in = index(s, j, s - i - 1);
            let v = b.get(idx_in);
            out.set(idx_out, v);
            proof {
                assert forall|k: int| 0 <= k < n implies #[trigger] out@[k] == if k / (s as int)
                    < i || (k / (s as int) == i && k % (s as int) < j + 1) {
                    rotated(g, s as int)[k]
                } else {
                    false
                } by {
                    lemma_split(k, s as int);
                    if k == idx_out {
                        lemma_row_col(k, s as int, i as int);
                    } else if k / (s as int) == i {
                        lemma_row_col(k, s as int, i as int);
                    }
                }
            }
            j = j + 1;
        }
        proof {
            assert forall|k: int| 0 <= k < n implies #[trigger] out@[k] == if k / (s as int) < i
                + 1 {
                rotated(g, s as int)[k]
            } else {
                false
            } by {
                lemma_split(k, s as int);
            }
        }
        i = i + 1;
    }
    proof {
        assert forall|k: int| 0 <= k < n implies out@[k] == rotated(g, s as int)[k] by {
            lemma_split(k, s as int);
        }
        assert(out@ =~= rotated(g, s as int));
    }
    out
}

/// The four quarter turns of `b`, starting with `b` itself.
pub fn rotations(b: Grid, side_length: usize) -> (r: [Grid; 4])
    requires
        b@.len() == side_length * side_length,
    ensures
        r[0]@ == rotations_of(b@, side_length as int)[0],
        r[1]@ == rotations_of(b@, side_length as int)[1],
        r[2]@ == rotations_of(b@, side_length as int)[2],
        r[3]@ == rotations_of(b@, side_length as int)[3],
{
    let r1 = rotate90(&b, side_length);
    let r2 = rotate90(&r1, side_length);
    let r3 = rotate90(&r2, side_length);
    [b, r1, r2, r3]
}

/// The number of fully empty rows above the first occupied cell.
fn leading_rows(bits: &Grid, side_length: usize) -> (r: usize)
    requires
        side_length > 0,
    ensures
        r == leading_rows_of(bits@, side_length as int),
{
    bits.leading_zeros() / side_length
}

/// The first column holding an occupied cell, or `side_length` if none does.
fn leading_cols(bits: &Grid, side_length: usize) -> (r: usize)
    requires
        bits@.len() == side_length * side_length,
    ensures
        r == leading_cols_of(bits@, side_length as int),
{
    let s = side_length;
    let ghost g = bits@;
    let n = bits.len();
    let mut i: usize = 0;
    while i < s
        invariant
            0 <= i <= s,
            g == bits@,
            g.len() == s * s,
            n == s * s,
            s == side_length,
            leading_cols_of(g, s as int) == first_column_from(g, s as int, i as int),
        decreases s - i,
    {
        let mut j: usize = 0;
        while j < s
            invariant
                0 <= i < s,
                0 <= j <= s,
                g == bits@,
                g.len() == s * s,
                n == s * s,
                s == side_length,
                leading_cols_of(g, s as int) == first_column_from(g, s as int, i as int),
                forall|j2: int| 0 <= j2 < j ==> !#[trigger] cell(g, s as int, j2, i as int),
            decreases s - j,
        {
            proof {
                lemma_index_in_grid(j as int, i as int, s as int);
            }
            if bits.get(i + j * s) {
                proof {
                    assert(cell(g, s as int, j as int, i as int));
                    assert(column_occupied(g, s as int, i as int));
                    assert(first_column_from(g, s as int, i as int) == i as int);
                }
                return i;
            }
            j = j + 1;
        }
        proof {
            assert(!column_occupied(g, s as int, i as int));
        }
        i = i + 1;
    }
    s
}

/// Translates the shape so that its bounding box touches the top-left
/// corner.
pub fn move_top_left(bits: &mut Grid, side_length: usize)
    requires
        old(bits)@.len() == side_length * side_length,
        occupied(old(bits)@),
    ensures
        final(bits)@ == moved_top_left(old(bits)@, side_length as int),
{
    let s = side_length;
    let n = bits.len();
    proof {
        if s == 0 {
            assert(old(bits)@.len() == 0);
        }
        lemma_occupied_bounds(old(bits)@, s as int);
    }
    let leading_rows = leading_rows(bits, s);
    let leading_cols = leading_cols(bits, s);
    bits.shift_start(leading_cols + leading_rows * s);
}

/// Moves the shape up one row when the first row is empty, and left one
/// column when the first column is empty.
pub fn nudge_top_left(bits: &mut Grid, side_length: usize)
    requires
        old(bits)@.len() == side_length * side_length,
        side_length >= 2 || occupied(old(bits)@),
    ensures
        final(bits)@ == nudged(old(bits)@, side_length as int),
{
    let s = side_length;
    let ghost g = bits@;
    let n = bits.len();
    let nudge_up = bits.leading_zeros() >= s;
    let mut nudge_left = true;
    let mut i: usize = 0;
    while i < s
        invariant
            0 <= i <= s,
            n == s * s,
            g == bits@,
            g.len() == s * s,
            nudge_left == forall|j: int| 0 <= j < i ==> !#[trigger] cell(g, s as int, j, 0),
        decreases s - i,
    {
        proof {
            lemma_index_in_grid(i as int, 0, s as int);
        }
        if bits.get(i * s) {
            nudge_left = false;
        }
        proof {
            assert(cell(g, s as int, i as int, 0) == g[i * s]);
        }
        i = i + 1;
    }
    proof {
        lemma_first_set(g);
        if s < 2 {
            let k = choose|k: int| 0 <= k < g.len() && g[k];
            if s == 0 {
                assert(g.len() == 0);
            } else {
                assert(cell(g, 1, 0, 0));
            }
        } else {
            assert(s + 1 <= s * s) by (nonlinear_arith)
                requires
                    s >= 2,
            ;
        }
    }
    let left: usize = if nudge_left { 1 } else { 0 };
    let up: usize = if nudge_up { s } else { 0 };
    proof {
        assert(nudge_left == !column_occupied(g, s as int, 0));
    }
    bits.shift_start(left + up);
}

/// The top-left `to` by `to` window of a grid of side `from`; every
/// occupied cell must lie in that window.
pub fn crop(bits: &Grid, from: usize, to: usize) -> (r: Grid)
    requires
        to <= from,
        bits@.len() == from * from,
        fits_window(bits@, from as int, to as int),
    ensures
        r@ == cropped(bits@, from as int, to as int),
{
    let ghost g = bits@;
    let n = bits.len();
    if from == to {
        proof {
            assert forall|k: int| 0 <= k < g.len() implies g[k] == cropped(g, from as int, to as int)[k] by {
                if from == 0 {
                    assert(from * from == 0);
                }
                lemma_split(k, from as int);
            }
            assert(g =~= cropped(g, from as int, to as int));
        }
        return bits.clone();
    }
    let mut v = Grid::empty();
    let mut r: usize = 0;
    while r < to
        invariant
            0 <= r <= to,
            to < from,
            n == from * from,
            8 * n <= usize::MAX,
            g == bits@,
            g.len() == from * from,
            v@.len() == r * to,
            forall|k: int| 0 <= k < r * to ==> #[trigger] v@[k] == g[(k / (to as int)) * from + k % (to as int)],
        decreases to - r,
    {
        proof {
            lemma_index_in_grid(r as int, to as int, from as int);
            assert(r * from + to <= from * from) by (nonlinear_arith)
                requires
                    r < to, to < from,
            ;
            assert(r * to + to <= from * from) by (nonlinear_arith)
                requires
                    r < to, to < from,
            ;
        }
        let ghost before = v@;
        v.extend_from_range(bits, r * from, r * from + to);
        proof {
            assert((r + 1) * to == r * to + to) by (nonlinear_arith);
            assert forall|k: int| 0 <= k < (r + 1) * to implies #[trigger] v@[k] == g[(k / (to as int)) * from + k % (to as int)] by {
                if k >= r * to {
                    lemma_row_col(k, to as int, r as int);
                } else {
                    assert(v@[k] == before[k]);
                }
            }
        }
        r = r + 1;
    }
    proof {
        assert(v@ =~= cropped(g, from as int, to as int));
    }
    v
}

/// Padding a grid, nudging it back to the corner and cropping it to its
/// old side gives the grid back.
pub proof fn lemma_crop_undoes_padding(g: Seq<bool>, s: int)
    requires
        0 <= s,
        g.len() == s * s,
    ensures
        fits_window(nudged(padded(g, s), s + 2), s + 2, s),
        cropped(nudged(padded(g, s), s + 2), s + 2, s) == g,
{
    let w = s + 2;
    let p = padded(g, s);
    let t = nudged(p, w);
    lemma_first_set(p);
    let f = first_set(p);
    if f < w {
        lemma_padded_cell(g, s, 0, f);
        lemma_index_in_grid(0, f, w);
        assert(cell(p, w, 0, f));
    }
    assert(!column_occupied(p, w, 0)) by {
        assert forall|j: int| !#[trigger] cell(p, w, j, 0) by {
            lemma_padded_cell(g, s, j, 0);
        }
    }
    assert forall|r2: int, c2: int| #[trigger] cell(p, w, r2, c2) implies c2 >= 1 by {
        lemma_padded_cell(g, s, r2, c2);
    }
    assert forall|r: int, c: int| #[trigger] cell(t, w, r, c) == cell(g, s, r, c) by {
        if 0 <= r < w && 0 <= c < w {
            lemma_shifted_cell(p, w, 1, 1, r, c);
            lemma_padded_cell(g, s, r + 1, c + 1);
        }
    }
    let cr = cropped(t, w, s);
    if s > 0 {
        assert forall|k: int| 0 <= k < g.len() implies cr[k] == g[k] by {
            lemma_split(k, s);
            let r = k / s;
            let c = k % s;
            lemma_index_in_grid(r, c, w);
            assert(cell(t, w, r, c) == cell(g, s, r, c));
        }
    }
    assert(cr =~= g);
}

/// Cropping the padded grid straight back to its old side restores it
/// only when the grid is empty: padding moves every cell one row down and
/// one column right.
pub proof fn lemma_crop_of_padding_when_empty(g: Seq<bool>, s: int)
    requires
        0 <= s,
        g.len() == s * s,
        !occupied(g),
    ensures
        fits_window(padded(g, s), s + 2, s),
        cropped(padded(g, s), s + 2, s) == g,
{
    let w = s + 2;
    let p = padded(g, s);
    assert forall|r: int, c: int| !#[trigger] cell(p, w, r, c) by {
        lemma_padded_cell(g, s, r, c);
        if cell(g, s, r - 1, c - 1) {
            lemma_index_in_grid(r - 1, c - 1, s);
        }
    }
    let cr = cropped(p, w, s);
    if s > 0 {
        assert forall|k: int| 0 <= k < g.len() implies cr[k] == g[k] by {
            lemma_split(k, s);
            lemma_index_in_grid(k / s, k % s, w);
            assert(!cell(p, w, k / s, k % s));
            assert(!g[k]);
        }
    }
    assert(cr =~= g);
}

/// The cell at row `i`, column `j` of a grid of side `side_length`, or
/// `None` when the grid is too short to hold it.
pub fn cell_at(bits: &Grid, side_length: usize, i: usize, j: usize) -> (r: Option<bool>)
    requires
        i < side_length,
        j < side_length,
        side_length * side_length <= usize::MAX,
    ensures
        r == if i * side_length + j < bits@.len() {
            Some(bits@[i * side_length + j])
        } else {
            None::<bool>
        },
{
    proof {
        lemma_index_in_grid(i as int, j as int, side_length as int);
    }
    let k = index(side_length, i, j);
    if k < bits.len() {
        Some(bits.get(k))
    } else {
        None
    }
}

} // verus!
