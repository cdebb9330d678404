use vstd::prelude::*;

use crate::canon::canonicalize;
use crate::geometry::{crop, nudge_top_left, pad_all_sides};
use crate::grid::Grid;
use crate::model::{
    cell, child, children_of, lemma_child_fits, lemma_index_in_grid, lemma_padded_cell, lemma_row_col, lemma_split, neighbours, padded,
    placements,
};

verus! {

/// The mask built from four flat shifts of a padded grid, before the
/// occupied cells are cleared from it.
spec fn shifted_union(p: Seq<bool>, w: int, k: int) -> bool {
    (k + 1 < p.len() && p[k + 1]) || (k >= 1 && p[k - 1]) || (k + w < p.len() && p[k + w]) || (k
        >= w && p[k - w])
}

/// On a padded grid the flat shifts by one place never carry a bit across
/// a row end: the cells they would carry come from the empty border.
proof fn lemma_flat_shifts_are_neighbours(g: Seq<bool>, s: int, k: int)
    requires
        0 <= s,
        g.len() == s * s,
        0 <= k < (s + 2) * (s + 2),
    ensures
        (!padded(g, s)[k] && shifted_union(padded(g, s), s + 2, k)) == neighbours(
            padded(g, s),
            s + 2,
        )[k],
{
    let w = s + 2;
    let p = padded(g, s);
    lemma_split(k, w);
    let r = k / w;
    let c = k % w;
    assert((r + 1) * w == r * w + w) by (nonlinear_arith);
    assert((r - 1) * w == r * w - w) by (nonlinear_arith);
    assert(w * w == (w - 1) * w + w) by (nonlinear_arith);
    lemma_padded_cell(g, s, r, c);
    lemma_padded_cell(g, s, r, c + 1);
    lemma_padded_cell(g, s, r, c - 1);
    lemma_padded_cell(g, s, r + 1, c);
    lemma_padded_cell(g, s, r - 1, c);
    assert(p[k] == cell(p, w, r, c));
    let n = p.len() as int;
    if c + 1 < w {
        lemma_index_in_grid(r, c + 1, w);
        assert(p[k + 1] == cell(p, w, r, c + 1));
    } else if k + 1 < n {
        assert(r + 1 < w) by (nonlinear_arith)
            requires
                (r + 1) * w < w * w,
                w > 0,
        ;
        lemma_padded_cell(g, s, r + 1, 0);
        assert(p[k + 1] == cell(p, w, r + 1, 0));
    }
    assert((k + 1 < n && p[k + 1]) == cell(p, w, r, c + 1));
    if c >= 1 {
        lemma_index_in_grid(r, c - 1, w);
        assert(p[k - 1] == cell(p, w, r, c - 1));
    } else if k >= 1 {
        if r == 0 {
            assert(r * w == 0) by (nonlinear_arith)
                requires
                    r == 0,
            ;
        }
        lemma_padded_cell(g, s, r - 1, w - 1);
        assert(p[k - 1] == cell(p, w, r - 1, w - 1));
    }
    assert((k >= 1 && p[k - 1]) == cell(p, w, r, c - 1));
    if r + 1 < w {
        lemma_index_in_grid(r + 1, c, w);
        assert(p[k + w] == cell(p, w, r + 1, c));
    } else {
        assert(k + w >= n);
    }
    assert((k + w < n && p[k + w]) == cell(p, w, r + 1, c));
    if r >= 1 {
        lemma_index_in_grid(r - 1, c, w);
        assert(p[k - w] == cell(p, w, r - 1, c));
    } else {
        assert(r * w == 0) by (nonlinear_arith)
            requires
                r == 0,
        ;
    }
    assert((k >= w && p[k - w]) == cell(p, w, r - 1, c));
    assert(neighbours(p, w)[k] == (!cell(p, w, r, c) && (cell(p, w, r, c + 1) || cell(p, w, r, c - 1)
        || cell(p, w, r + 1, c) || cell(p, w, r - 1, c))));
}

/// Pads the shape by one empty cell on every side and returns the padded
/// grid with the mask of the empty cells that share an edge with an occupied
/// one.
pub fn potential_cube_placements(bitvec: Grid, side_length: usize) -> (r: (Grid, Grid))
    requires
        bitvec@.len() == side_length * side_length,
        8 * ((side_length + 2) * (side_length + 2)) <= usize::MAX,
    ensures
        r.0@ == padded(bitvec@, side_length as int),
        r.1@ == placements(bitvec@, side_length as int),
{
    let ghost g = bitvec@;
    let original = pad_all_sides(bitvec, side_length);
    proof {
        assert(side_length + 2 <= (side_length + 2) * (side_length + 2)) by (nonlinear_arith);
    }
    let w = side_length + 2;
    let n = w * w;
    proof {
        assert(w <= n) by (nonlinear_arith)
            requires
                n == w * w,
                w >= 2,
        ;
    }
    let mut placements = Grid::zeros(n);
    let ghost p = original@;
    // left
    placements.or_range(0, &original, 1, n - 1);
    // right
    placements.or_range(1, &original, 0, n - 1);
    // up
    placements.or_range(0, &original, w, n - w);
    // down
    placements.or_range(w, &original, 0, n - w);
    proof {
        assert forall|k: int| 0 <= k < n implies #[trigger] placements@[k] == shifted_union(
            p,
            w as int,
            k,
        ) by {}
    }
    let original = original.invert();
    placements.and_assign(&original);
    let original = original.invert();
    proof {
        assert(original@ =~= p);
        assert forall|k: int| 0 <= k < n implies #[trigger] placements@[k] == neighbours(
            p,
            w as int,
        )[k] by {
            lemma_flat_shifts_are_neighbours(g, side_length as int, k);
        }
        assert(placements@ =~= neighbours(p, w as int));
    }
    (original, placements)
}

/// Every canonical shape one cell larger than `parent` obtained by adding
/// one of its placements, in ascending order of the placement's index;
/// the same shape may appear more than once.
pub fn children(parent: Grid, generation: usize) -> (r: Vec<Grid>)
    requires
        parent@.len() == generation * generation,
        8 * ((generation + 2) * (generation + 2)) <= usize::MAX,
    ensures
        forall|k: int| 0 <= k < r.len() ==> children_of(parent@, generation as int).contains(#[trigger] r[k]@),
        forall|x: Seq<bool>| children_of(parent@, generation as int).contains(x) ==> exists|k: int|
            0 <= k < r.len() && #[trigger] r[k]@ == x,
        forall|k: int| 0 <= k < r.len() ==> (#[trigger] r[k])@.len() == (generation + 1) * (generation + 1),
{
    let ghost g = parent@;
    let ghost s = generation as int;
    let (parent, mask) = potential_cube_placements(parent, generation);
    proof {
        assert(generation + 2 <= (generation + 2) * (generation + 2)) by (nonlinear_arith);
    }
    let w = generation + 2;
    let n = mask.len();
    let mut out: Vec<Grid> = Vec::new();
    let ghost mut src: Seq<int> = Seq::empty();
    let mut i: usize = 0;
    while i < n
        invariant
            0 <= i <= n,
            w == generation + 2,
            n == w * w,
            s == generation,
            g.len() == s * s,
            parent@ == padded(g, s),
            mask@ == placements(g, s),
            src.len() == out.len(),
            forall|k: int| 0 <= k < out.len() ==> (#[trigger] out@[k])@.len() == (s + 1) * (s + 1),
            forall|k: int|
                0 <= k < out.len() ==> 0 <= #[trigger] src[k] < i && placements(g, s)[src[k]]
                    && out@[k]@ == child(g, s, src[k]),
            forall|j: int|
                0 <= j < i && placements(g, s)[j] ==> exists|k: int|
                    0 <= k < out.len() && #[trigger] src[k] == j,
        decreases n - i,
    {
        if mask.get(i) {
            let mut new_polycube = parent.clone();
            new_polycube.set(i, true);
            proof {
                lemma_child_fits(g, s, i as int);
            }
            nudge_top_left(&mut new_polycube, w);
            let new_polycube = crop(&new_polycube, w, generation + 1);
            let c = canonicalize(new_polycube, generation + 1);
            let ghost before = out@;
            let ghost src0 = src;
            out.push(c);
            proof {
                src = src.push(i as int);
                assert forall|j: int| 0 <= j < i + 1 && placements(g, s)[j] implies exists|k: int|
                    0 <= k < out.len() && #[trigger] src[k] == j by {
                    if j < i {
                        let k = choose|k: int| 0 <= k < before.len() && #[trigger] src0[k] == j;
                        assert(src[k] == j);
                    } else {
                        assert(src[before.len() as int] == j);
                    }
                }
            }
        }
        i = i + 1;
    }
    proof {
        assert forall|k: int| 0 <= k < out.len() implies (#[trigger] out[k])@.len() == (s + 1) * (s + 1) by {
            assert(out[k] == out@[k]);
        }
        assert forall|k: int| 0 <= k < out.len() implies children_of(g, s).contains(#[trigger] out[k]@) by {
            assert(out[k] == out@[k]);
            assert(0 <= src[k] < (s + 2) * (s + 2));
        }
        assert forall|x: Seq<bool>| children_of(g, s).contains(x) implies exists|k: int|
            0 <= k < out.len() && #[trigger] out[k]@ == x by {
            let j = choose|j: int| 0 <= j < (s + 2) * (s + 2) && placements(g, s)[j] && x == child(g, s, j);
            let k = choose|k: int| 0 <= k < out.len() && #[trigger] src[k] == j;
            assert(out[k] == out@[k]);
        }
    }
    out
}

} // verus!
