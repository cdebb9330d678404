use vstd::prelude::*;

use core::cmp::Ordering;

use crate::geometry::{move_top_left, rotations};
use crate::grid::Grid;
use crate::model::{
    canonical, leading_cols_of, leading_rows_of, lemma_canonical_len, lemma_four_turns,
    lemma_lex_max4_cycle, lemma_moved_alike_canonical, lemma_moved_is_translate,
    lemma_rotated_occupied, lemma_translate_occupied, lemma_translates_move_alike, lex_max,
    moved_top_left, occupied, rotated, rotations_of,
};

verus! {

/// The larger of two grids in bit order, the second one on a tie.
fn keep_max(best: Grid, p: Grid) -> (r: Grid)
    ensures
        r@ == lex_max(best@, p@),
{
    match best.compare(&p) {
        Ordering::Greater => best,
        _ => p,
    }
}

/// The canonical form of a shape: of its four quarter turns, each moved to
/// the top-left corner, the one whose bits are largest.
pub fn canonicalize(polycube: Grid, side_length: usize) -> (r: Grid)
    requires
        polycube@.len() == side_length * side_length,
        occupied(polycube@),
    ensures
        r@ == canonical(polycube@, side_length as int),
        r@.len() == polycube@.len(),
{
    let s = side_length;
    let ghost g = polycube@;
    let ghost t = rotations_of(g, s as int);
    proof {
        lemma_canonical_len(g, s as int);
        if s == 0 {
            assert(g.len() == 0);
        }
        lemma_rotated_occupied(t[0], s as int);
        lemma_rotated_occupied(t[1], s as int);
        lemma_rotated_occupied(t[2], s as int);
    }
    let turns = rotations(polycube, s);
    let mut p0 = turns[0].clone();
    let mut p1 = turns[1].clone();
    let mut p2 = turns[2].clone();
    let mut p3 = turns[3].clone();
    move_top_left(&mut p0, s);
    move_top_left(&mut p1, s);
    move_top_left(&mut p2, s);
    move_top_left(&mut p3, s);
    let best = keep_max(p0, p1);
    let best = keep_max(best, p2);
    keep_max(best, p3)
}

/// Turning a shape a quarter does not change its canonical form.
pub proof fn lemma_canonical_turn_invariant(g: Seq<bool>, s: int)
    requires
        0 < s,
        g.len() == s * s,
    ensures
        canonical(rotated(g, s), s) == canonical(g, s),
{
    let t = rotations_of(g, s);
    lemma_four_turns(g, s);
    lemma_lex_max4_cycle(
        moved_top_left(t[0], s),
        moved_top_left(t[1], s),
        moved_top_left(t[2], s),
        moved_top_left(t[3], s),
    );
}

/// Every one of a shape's four quarter turns has the shape's canonical
/// form.
pub proof fn lemma_canonical_rotations_agree(g: Seq<bool>, s: int, k: int)
    requires
        0 < s,
        g.len() == s * s,
        0 <= k < 4,
    ensures
        canonical(rotations_of(g, s)[k], s) == canonical(g, s),
{
    let t = rotations_of(g, s);
    lemma_canonical_turn_invariant(g, s);
    lemma_canonical_turn_invariant(t[1], s);
    lemma_canonical_turn_invariant(t[2], s);
}

/// Canonicalizing a canonical form changes nothing.
pub proof fn lemma_canonical_idempotent(g: Seq<bool>, s: int)
    requires
        0 < s,
        g.len() == s * s,
        occupied(g),
    ensures
        canonical(canonical(g, s), s) == canonical(g, s),
{
    let t = rotations_of(g, s);
    let c = canonical(g, s);
    lemma_rotated_occupied(t[0], s);
    lemma_rotated_occupied(t[1], s);
    lemma_rotated_occupied(t[2], s);
    // The canonical form is the top-left form of one of the turns.
    let k: int = if c == moved_top_left(t[0], s) {
        0
    } else if c == moved_top_left(t[1], s) {
        1
    } else if c == moved_top_left(t[2], s) {
        2
    } else {
        3
    };
    let tk = t[k];
    assert(c == moved_top_left(tk, s));
    lemma_moved_is_translate(tk, s);
    lemma_translate_occupied(tk, c, s, -leading_rows_of(tk, s), -leading_cols_of(tk, s));
    lemma_translates_move_alike(tk, c, s, -leading_rows_of(tk, s), -leading_cols_of(tk, s));
    lemma_moved_alike_canonical(c, tk, s);
    lemma_canonical_rotations_agree(g, s, k);
}

} // verus!
