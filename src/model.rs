use vstd::prelude::*;

use core::cmp::Ordering;

verus! {

/// Lexicographic order on bit sequences with a set bit above a clear one;
/// a proper prefix orders below the longer sequence.
pub open spec fn lex_cmp(a: Seq<bool>, b: Seq<bool>) -> Ordering
    decreases a.len(),
{
    if a.len() == 0 || b.len() == 0 {
        if a.len() < b.len() {
            Ordering::Less
        } else if a.len() > b.len() {
            Ordering::Greater
        } else {
            Ordering::Equal
        }
    } else if a[0] && !b[0] {
        Ordering::Greater
    } else if !a[0] && b[0] {
        Ordering::Less
    } else {
        lex_cmp(a.drop_first(), b.drop_first())
    }
}

} // verus!

verus! {

/// Whether cell (`r`, `c`) of the `s` by `s` grid `g` is occupied; cells
/// outside the grid read as empty.
pub open spec fn cell(g: Seq<bool>, s: int, r: int, c: int) -> bool {
    0 <= r < s && 0 <= c < s && g[r * s + c]
}

/// Whether `g` has at least one occupied cell.
pub open spec fn occupied(g: Seq<bool>) -> bool {
    exists|i: int| 0 <= i < g.len() && g[i]
}

/// `g` embedded in a grid two cells wider with an empty border all round.
pub open spec fn padded(g: Seq<bool>, s: int) -> Seq<bool> {
    Seq::new(
        ((s + 2) * (s + 2)) as nat,
        |k: int| cell(g, s, k / (s + 2) - 1, k % (s + 2) - 1),
    )
}

/// `g` turned a quarter: cell (`i`, `j`) of the result is cell
/// (`j`, `s - 1 - i`) of `g`.
pub open spec fn rotated(g: Seq<bool>, s: int) -> Seq<bool> {
    Seq::new(g.len(), |k: int| cell(g, s, k % s, s - 1 - k / s))
}

/// `g` with every bit moved `by` places toward index zero, clear bits
/// filling the tail.
pub open spec fn shifted(g: Seq<bool>, by: int) -> Seq<bool> {
    Seq::new(g.len(), |i: int| if i + by < g.len() { g[i + by] } else { false })
}

/// The index of the first set bit of `g`, or its length if none is set.
pub open spec fn first_set(g: Seq<bool>) -> int
    decreases g.len(),
{
    if g.len() == 0 {
        0
    } else if g[0] {
        0
    } else {
        1 + first_set(g.drop_first())
    }
}

/// The number of fully empty rows above the first occupied cell.
pub open spec fn leading_rows_of(g: Seq<bool>, s: int) -> int {
    first_set(g) / s
}

/// Whether column `c` holds an occupied cell.
pub open spec fn column_occupied(g: Seq<bool>, s: int, c: int) -> bool {
    exists|j: int| 0 <= j < s && #[trigger] cell(g, s, j, c)
}

/// The first occupied column at or after `c`, or `s` if there is none.
pub open spec fn first_column_from(g: Seq<bool>, s: int, c: int) -> int
    decreases s - c,
{
    if c >= s {
        s
    } else if column_occupied(g, s, c) {
        c
    } else {
        first_column_from(g, s, c + 1)
    }
}

/// The number of fully empty columns left of the first occupied cell.
pub open spec fn leading_cols_of(g: Seq<bool>, s: int) -> int {
    first_column_from(g, s, 0)
}

/// `g` translated so that its bounding box touches the top-left corner.
pub open spec fn moved_top_left(g: Seq<bool>, s: int) -> Seq<bool> {
    shifted(g, leading_cols_of(g, s) + leading_rows_of(g, s) * s)
}

/// `g` moved up by one row when its first row is empty, and left by one
/// column when its first column is empty.
pub open spec fn nudged(g: Seq<bool>, s: int) -> Seq<bool> {
    let up: int = if first_set(g) >= s { 1 } else { 0 };
    let left: int = if !column_occupied(g, s, 0) { 1 } else { 0 };
    shifted(g, left + up * s)
}

/// The top-left `to` by `to` window of the `from` by `from` grid `g`.
pub open spec fn cropped(g: Seq<bool>, from: int, to: int) -> Seq<bool> {
    Seq::new((to * to) as nat, |k: int| g[(k / to) * from + k % to])
}

/// Whether every occupied cell of the `from`-sided grid `g` lies in its
/// top-left `to` by `to` window.
pub open spec fn fits_window(g: Seq<bool>, from: int, to: int) -> bool {
    forall|r: int, c: int| #[trigger] cell(g, from, r, c) ==> r < to && c < to
}

/// The larger of two bit sequences in `lex_cmp` order, the second one on a
/// tie.
pub open spec fn lex_max(a: Seq<bool>, b: Seq<bool>) -> Seq<bool> {
    if lex_cmp(a, b) == Ordering::Greater {
        a
    } else {
        b
    }
}

/// The four quarter turns of `g`, starting with `g` itself.
pub open spec fn rotations_of(g: Seq<bool>, s: int) -> Seq<Seq<bool>> {
    seq![g, rotated(g, s), rotated(rotated(g, s), s), rotated(rotated(rotated(g, s), s), s)]
}

/// The canonical representative of `g` under quarter turns and
/// translation: the lexicographically largest of its four turns, each moved
/// to the top-left corner.
pub open spec fn canonical(g: Seq<bool>, s: int) -> Seq<bool> {
    let t = rotations_of(g, s);
    lex_max(
        lex_max(lex_max(moved_top_left(t[0], s), moved_top_left(t[1], s)), moved_top_left(t[2], s)),
        moved_top_left(t[3], s),
    )
}

/// The empty cells of the `w`-sided grid `p` that share an edge with an
/// occupied cell.
pub open spec fn neighbours(p: Seq<bool>, w: int) -> Seq<bool> {
    Seq::new(
        p.len(),
        |k: int|
            {
                let r = k / w;
                let c = k % w;
                !cell(p, w, r, c) && (cell(p, w, r, c + 1) || cell(p, w, r, c - 1) || cell(
                    p,
                    w,
                    r + 1,
                    c,
                ) || cell(p, w, r - 1, c))
            },
    )
}

/// The places where one cell can be added to the `s`-sided shape `g`, as a
/// mask over the padded grid.
pub open spec fn placements(g: Seq<bool>, s: int) -> Seq<bool> {
    neighbours(padded(g, s), s + 2)
}

/// The canonical shape obtained by adding the cell at index `i` of the
/// padded grid to the `s`-sided shape `g`.
pub open spec fn child(g: Seq<bool>, s: int, i: int) -> Seq<bool> {
    canonical(cropped(nudged(padded(g, s).update(i, true), s + 2), s + 2, s + 1), s + 1)
}

/// Every canonical shape reachable from `g` by adding one cell.
pub open spec fn children_of(g: Seq<bool>, s: int) -> Set<Seq<bool>> {
    Set::new(
        |c: Seq<bool>|
            exists|i: int| 0 <= i < (s + 2) * (s + 2) && placements(g, s)[i] && c == child(g, s, i),
    )
}

// Index arithmetic on row-major grids.

pub proof fn lemma_index_in_grid(r: int, c: int, w: int)
    requires
        0 <= r < w,
        0 <= c < w,
    ensures
        0 <= r * w + c < w * w,
        r * w <= r * w + c < r * w + w,
{
    assert(0 <= r * w + c < w * w) by (nonlinear_arith)
        requires
            0 <= r < w,
            0 <= c < w,
    ;
}

pub proof fn lemma_row_col(k: int, w: int, r: int)
    requires
        0 < w,
        r * w <= k < r * w + w,
    ensures
        k / w == r,
        k % w == k - r * w,
{
    vstd::arithmetic::div_mod::lemma_fundamental_div_mod_converse(k, w, r, k - r * w);
}

pub proof fn lemma_split(k: int, w: int)
    requires
        0 < w,
        0 <= k < w * w,
    ensures
        0 <= k / w < w,
        0 <= k % w < w,
        k == (k / w) * w + k % w,
{
    assert(0 <= k / w < w && 0 <= k % w < w && k == (k / w) * w + k % w) by (nonlinear_arith)
        requires
            0 < w,
            0 <= k < w * w,
    ;
}

pub proof fn lemma_first_set(g: Seq<bool>)
    ensures
        0 <= first_set(g) <= g.len(),
        forall|i: int| 0 <= i < first_set(g) ==> !g[i],
        first_set(g) < g.len() ==> g[first_set(g)],
    decreases g.len(),
{
    if g.len() > 0 && !g[0] {
        lemma_first_set(g.drop_first());
        assert forall|i: int| 0 <= i < first_set(g) implies !g[i] by {
            if i > 0 {
                assert(g[i] == g.drop_first()[i - 1]);
            }
        }
    }
}

pub proof fn lemma_first_column_from(g: Seq<bool>, s: int, c: int)
    requires
        0 <= c <= s,
    ensures
        c <= first_column_from(g, s, c) <= s,
        forall|c2: int| c <= c2 < first_column_from(g, s, c) ==> !column_occupied(g, s, c2),
        first_column_from(g, s, c) < s ==> column_occupied(g, s, first_column_from(g, s, c)),
    decreases s - c,
{
    if c < s && !column_occupied(g, s, c) {
        lemma_first_column_from(g, s, c + 1);
    }
}

/// An occupied grid has an occupied first row at index below its
/// length, and its first occupied column lies inside it.
pub proof fn lemma_occupied_bounds(g: Seq<bool>, s: int)
    requires
        0 < s,
        g.len() == s * s,
        occupied(g),
    ensures
        first_set(g) < s * s,
        0 <= leading_rows_of(g, s) < s,
        0 <= leading_cols_of(g, s) < s,
        leading_cols_of(g, s) + leading_rows_of(g, s) * s < s * s,
{
    let i = choose|i: int| 0 <= i < g.len() && g[i];
    lemma_first_set(g);
    if first_set(g) >= s * s {
        assert(!g[i]);
    }
    lemma_split(i, s);
    lemma_split(first_set(g), s);
    assert(cell(g, s, i / s, i % s));
    lemma_first_column_from(g, s, 0);
    if leading_cols_of(g, s) >= s {
        assert(!column_occupied(g, s, i % s));
    }
    let lc = leading_cols_of(g, s);
    let lr = leading_rows_of(g, s);
    assert(lc + lr * s < s * s) by (nonlinear_arith)
        requires
            0 <= lc < s,
            0 <= lr < s,
    ;
}

/// Reading a cell of the padded grid reads the cell one up and one left in
/// the original.
pub proof fn lemma_padded_cell(g: Seq<bool>, s: int, r: int, c: int)
    requires
        0 <= s,
    ensures
        cell(padded(g, s), s + 2, r, c) == cell(g, s, r - 1, c - 1),
{
    let w = s + 2;
    if 0 <= r < w && 0 <= c < w {
        lemma_index_in_grid(r, c, w);
        lemma_row_col(r * w + c, w, r);
    }
}

/// A quarter turn keeps a grid occupied.
pub proof fn lemma_rotated_occupied(g: Seq<bool>, s: int)
    requires
        0 < s,
        g.len() == s * s,
        occupied(g),
    ensures
        occupied(rotated(g, s)),
{
    let i = choose|i: int| 0 <= i < g.len() && g[i];
    lemma_split(i, s);
    let r = i / s;
    let c = i % s;
    let k = (s - 1 - c) * s + r;
    lemma_index_in_grid(s - 1 - c, r, s);
    lemma_row_col(k, s, s - 1 - c);
    assert(rotated(g, s)[k]);
}

/// Shifting the flat bits by `dc + dr * w` moves every cell `dr` rows up
/// and `dc` columns left, provided no occupied cell lies left of column `dc`.
pub proof fn lemma_shifted_cell(g: Seq<bool>, w: int, dr: int, dc: int, r: int, c: int)
    requires
        0 < w,
        g.len() == w * w,
        0 <= dr,
        0 <= dc < w,
        forall|r2: int, c2: int| #[trigger] cell(g, w, r2, c2) ==> c2 >= dc,
        0 <= r < w,
        0 <= c < w,
    ensures
        cell(shifted(g, dc + dr * w), w, r, c) == cell(g, w, r + dr, c + dc),
{
    lemma_index_in_grid(r, c, w);
    let k = r * w + c;
    let idx = k + dc + dr * w;
    assert(idx == (r + dr) * w + (c + dc)) by (nonlinear_arith)
        requires
            idx == k + dc + dr * w,
            k == r * w + c,
    ;
    if c + dc < w {
        if r + dr < w {
            lemma_index_in_grid(r + dr, c + dc, w);
        } else {
            assert(idx >= w * w) by (nonlinear_arith)
                requires
                    idx == (r + dr) * w + (c + dc),
                    r + dr >= w,
                    c + dc >= 0,
                    w > 0,
            ;
        }
    } else {
        assert(idx == (r + dr + 1) * w + (c + dc - w)) by (nonlinear_arith)
            requires
                idx == (r + dr) * w + (c + dc),
        ;
        if idx < w * w {
            assert(r + dr + 1 < w) by (nonlinear_arith)
                requires
                    idx == (r + dr + 1) * w + (c + dc - w),
                    c + dc - w >= 0,
                    idx < w * w,
                    w > 0,
            ;
            lemma_index_in_grid(r + dr + 1, c + dc - w, w);
            assert(!cell(g, w, r + dr + 1, c + dc - w));
        }
    }
}

/// Setting the bit at `i` occupies exactly the cell at `i`.
pub proof fn lemma_updated_cell(p: Seq<bool>, w: int, i: int, r: int, c: int)
    requires
        0 < w,
        p.len() == w * w,
        0 <= i < w * w,
    ensures
        cell(p.update(i, true), w, r, c) == ((r == i / w && c == i % w) || cell(p, w, r, c)),
{
    lemma_split(i, w);
    if 0 <= r < w && 0 <= c < w {
        lemma_index_in_grid(r, c, w);
        if r * w + c == i {
            lemma_row_col(i, w, r);
        }
    }
}

/// A cell added next to the padded shape, followed by the nudge, leaves
/// every occupied cell inside the window one wider than the shape, and the
/// added cell inside it.
pub proof fn lemma_child_fits(g: Seq<bool>, s: int, i: int)
    requires
        0 <= s,
        g.len() == s * s,
        0 <= i < (s + 2) * (s + 2),
    ensures
        fits_window(nudged(padded(g, s).update(i, true), s + 2), s + 2, s + 1),
        occupied(cropped(nudged(padded(g, s).update(i, true), s + 2), s + 2, s + 1)),
{
    let w = s + 2;
    let p = padded(g, s);
    let q = p.update(i, true);
    let t = nudged(q, w);
    let up: int = if first_set(q) >= w { 1 } else { 0 };
    let left: int = if !column_occupied(q, w, 0) { 1 } else { 0 };
    lemma_first_set(q);
    lemma_split(i, w);
    let ri = i / w;
    let ci = i % w;
    assert forall|r2: int, c2: int| #[trigger] cell(q, w, r2, c2) implies c2 >= left by {
        if c2 == 0 && left == 1 {
            assert(column_occupied(q, w, 0));
        }
    }
    // The occupied cells of q: the added one and those of the shape.
    assert forall|r2: int, c2: int| #[trigger] cell(q, w, r2, c2) implies (r2 == ri && c2 == ci) || (1
        <= r2 <= s && 1 <= c2 <= s) by {
        lemma_updated_cell(p, w, i, r2, c2);
        lemma_padded_cell(g, s, r2, c2);
    }
    // Without a nudge up, the added cell is in the first row.
    if up == 0 {
        let f = first_set(q);
        lemma_index_in_grid(0, f, w);
        assert(cell(q, w, 0, f));
    }
    // Without a nudge left, the added cell is in the first column.
    if left == 0 {
        let j = choose|j: int| 0 <= j < w && #[trigger] cell(q, w, j, 0);
        assert(cell(q, w, j, 0));
    }
    assert forall|r: int, c: int| #[trigger] cell(t, w, r, c) implies r < s + 1 && c < s + 1 by {
        lemma_shifted_cell(q, w, up, left, r, c);
        assert(cell(q, w, r + up, c + left));
    }
    // The added cell survives the nudge.
    if up == 1 && ri == 0 {
        lemma_index_in_grid(0, ci, w);
        assert(q[i]);
    }
    if left == 1 && ci == 0 {
        lemma_updated_cell(p, w, i, ri, 0);
        assert(cell(q, w, ri, 0));
    }
    lemma_updated_cell(p, w, i, ri, ci);
    lemma_shifted_cell(q, w, up, left, ri - up, ci - left);
    assert(cell(t, w, ri - up, ci - left));
    let u = s + 1;
    lemma_index_in_grid(ri - up, ci - left, u);
    let k = (ri - up) * u + (ci - left);
    lemma_row_col(k, u, ri - up);
    assert(cropped(t, w, u)[k]);
}

/// Canonical forms keep the grid's size.
pub proof fn lemma_canonical_len(g: Seq<bool>, s: int)
    ensures
        canonical(g, s).len() == g.len(),
{
}

/// The largest of four bit sequences, folded from the left.
pub open spec fn lex_max4(a: Seq<bool>, b: Seq<bool>, c: Seq<bool>, d: Seq<bool>) -> Seq<bool> {
    lex_max(lex_max(lex_max(a, b), c), d)
}

pub proof fn lemma_lex_antisymmetric(a: Seq<bool>, b: Seq<bool>)
    ensures
        (lex_cmp(a, b) == Ordering::Greater) == (lex_cmp(b, a) == Ordering::Less),
        (lex_cmp(a, b) == Ordering::Equal) == (a == b),
    decreases a.len(),
{
    if a.len() == 0 || b.len() == 0 {
        if a.len() == 0 && b.len() == 0 {
            assert(a =~= b);
        }
    } else if a[0] == b[0] {
        let ta = a.drop_first();
        let tb = b.drop_first();
        lemma_lex_antisymmetric(ta, tb);
        if ta == tb {
            assert forall|i: int| 0 <= i < a.len() implies a[i] == b[i] by {
                if i > 0 {
                    assert(a[i] == ta[i - 1]);
                    assert(b[i] == tb[i - 1]);
                }
            }
            assert(a =~= b);
        }
        if a == b {
            assert(ta =~= tb);
        }
    }
}

pub proof fn lemma_lex_transitive(a: Seq<bool>, b: Seq<bool>, c: Seq<bool>)
    requires
        lex_cmp(a, b) == Ordering::Greater,
        lex_cmp(b, c) == Ordering::Greater,
    ensures
        lex_cmp(a, c) == Ordering::Greater,
    decreases a.len(),
{
    if a.len() > 0 && b.len() > 0 && c.len() > 0 && a[0] == b[0] && b[0] == c[0] {
        lemma_lex_transitive(a.drop_first(), b.drop_first(), c.drop_first());
    }
}

pub proof fn lemma_lex_max_commutative(a: Seq<bool>, b: Seq<bool>)
    ensures
        lex_max(a, b) == lex_max(b, a),
{
    lemma_lex_antisymmetric(a, b);
    lemma_lex_antisymmetric(b, a);
}

pub proof fn lemma_lex_max_associative(a: Seq<bool>, b: Seq<bool>, c: Seq<bool>)
    ensures
        lex_max(lex_max(a, b), c) == lex_max(a, lex_max(b, c)),
{
    lemma_lex_antisymmetric(a, b);
    lemma_lex_antisymmetric(b, a);
    lemma_lex_antisymmetric(a, c);
    lemma_lex_antisymmetric(c, a);
    lemma_lex_antisymmetric(b, c);
    lemma_lex_antisymmetric(c, b);
    if lex_cmp(a, b) == Ordering::Greater && lex_cmp(b, c) == Ordering::Greater {
        lemma_lex_transitive(a, b, c);
    }
    if lex_cmp(c, b) == Ordering::Greater && lex_cmp(b, a) == Ordering::Greater {
        lemma_lex_transitive(c, b, a);
    }
    if lex_cmp(a, c) == Ordering::Greater && lex_cmp(c, b) == Ordering::Greater {
        lemma_lex_transitive(a, c, b);
    }
    if lex_cmp(b, a) == Ordering::Greater && lex_cmp(a, c) == Ordering::Greater {
        lemma_lex_transitive(b, a, c);
    }
    if lex_cmp(b, c) == Ordering::Greater && lex_cmp(c, a) == Ordering::Greater {
        lemma_lex_transitive(b, c, a);
    }
    if lex_cmp(c, a) == Ordering::Greater && lex_cmp(a, b) == Ordering::Greater {
        lemma_lex_transitive(c, a, b);
    }
}

/// The largest of four does not depend on where the cycle starts.
pub proof fn lemma_lex_max4_cycle(a: Seq<bool>, b: Seq<bool>, c: Seq<bool>, d: Seq<bool>)
    ensures
        lex_max4(b, c, d, a) == lex_max4(a, b, c, d),
{
    let x = lex_max(b, c);
    lemma_lex_max_commutative(lex_max(x, d), a);
    lemma_lex_max_associative(a, x, d);
    lemma_lex_max_associative(a, b, c);
}

/// Reading a cell of the quarter turn.
pub proof fn lemma_rotated_cell(g: Seq<bool>, s: int, i: int, j: int)
    requires
        g.len() == s * s,
        0 <= i < s,
        0 <= j < s,
    ensures
        cell(rotated(g, s), s, i, j) == cell(g, s, j, s - 1 - i),
{
    lemma_index_in_grid(i, j, s);
    lemma_row_col(i * s + j, s, i);
}

/// Two grids of side `s` that agree on every cell are equal.
pub proof fn lemma_grid_equal(a: Seq<bool>, b: Seq<bool>, s: int)
    requires
        0 < s,
        a.len() == s * s,
        b.len() == s * s,
        forall|r: int, c: int| 0 <= r < s && 0 <= c < s ==> #[trigger] cell(a, s, r, c) == cell(b, s, r, c),
    ensures
        a == b,
{
    assert forall|k: int| 0 <= k < a.len() implies a[k] == b[k] by {
        lemma_split(k, s);
        assert(cell(a, s, k / s, k % s) == cell(b, s, k / s, k % s));
    }
    assert(a =~= b);
}

/// Four quarter turns give the grid back.
pub proof fn lemma_four_turns(g: Seq<bool>, s: int)
    requires
        0 < s,
        g.len() == s * s,
    ensures
        rotated(rotated(rotated(rotated(g, s), s), s), s) == g,
{
    let r1 = rotated(g, s);
    let r2 = rotated(r1, s);
    let r3 = rotated(r2, s);
    let r4 = rotated(r3, s);
    assert forall|i: int, j: int| 0 <= i < s && 0 <= j < s implies #[trigger] cell(r4, s, i, j) == cell(g, s, i, j) by {
        lemma_rotated_cell(r3, s, i, j);
        lemma_rotated_cell(r2, s, j, s - 1 - i);
        lemma_rotated_cell(r1, s, s - 1 - i, s - 1 - j);
        lemma_rotated_cell(g, s, s - 1 - j, i);
    }
    lemma_grid_equal(r4, g, s);
}

/// `y` holds the cells of `x` moved `dr` rows down and `dc` columns right,
/// with none lost over the edge.
pub open spec fn translate_of(x: Seq<bool>, y: Seq<bool>, s: int, dr: int, dc: int) -> bool {
    forall|r: int, c: int| #[trigger] cell(y, s, r, c) == cell(x, s, r - dr, c - dc)
}

/// The first occupied row and column of an occupied grid are occupied, and
/// nothing lies above or left of them.
pub proof fn lemma_leading_bounds(x: Seq<bool>, s: int)
    requires
        0 < s,
        x.len() == s * s,
        occupied(x),
    ensures
        0 <= leading_rows_of(x, s) < s,
        0 <= leading_cols_of(x, s) < s,
        exists|c: int| #[trigger] cell(x, s, leading_rows_of(x, s), c),
        exists|r: int| #[trigger] cell(x, s, r, leading_cols_of(x, s)),
        forall|r: int, c: int| #[trigger] cell(x, s, r, c) ==> r >= leading_rows_of(x, s) && c >= leading_cols_of(x, s),
{
    lemma_occupied_bounds(x, s);
    lemma_first_set(x);
    lemma_first_column_from(x, s, 0);
    let f = first_set(x);
    let lr = leading_rows_of(x, s);
    let lc = leading_cols_of(x, s);
    lemma_split(f, s);
    assert(cell(x, s, lr, f % s));
    assert(column_occupied(x, s, lc));
    assert forall|r: int, c: int| #[trigger] cell(x, s, r, c) implies r >= lr && c >= lc by {
        if c < lc {
            assert(!column_occupied(x, s, c));
        }
        if r < lr {
            assert(r * s + c < f) by (nonlinear_arith)
                requires
                    r < lr,
                    0 <= c < s,
                    f == lr * s + f % s,
                    f % s >= 0,
            ;
        }
    }
}

/// A translate of an occupied grid is occupied.
pub proof fn lemma_translate_occupied(x: Seq<bool>, y: Seq<bool>, s: int, dr: int, dc: int)
    requires
        0 < s,
        x.len() == s * s,
        y.len() == s * s,
        occupied(x),
        translate_of(x, y, s, dr, dc),
    ensures
        occupied(y),
{
    let i = choose|i: int| 0 <= i < x.len() && x[i];
    lemma_split(i, s);
    assert(cell(x, s, i / s, i % s));
    assert(cell(y, s, i / s + dr, i % s + dc));
    lemma_index_in_grid(i / s + dr, i % s + dc, s);
}

/// Moving to the top-left corner is a translation.
pub proof fn lemma_moved_is_translate(x: Seq<bool>, s: int)
    requires
        0 < s,
        x.len() == s * s,
        occupied(x),
    ensures
        translate_of(x, moved_top_left(x, s), s, -leading_rows_of(x, s), -leading_cols_of(x, s)),
{
    let lr = leading_rows_of(x, s);
    let lc = leading_cols_of(x, s);
    lemma_leading_bounds(x, s);
    let m = moved_top_left(x, s);
    assert forall|r: int, c: int| #[trigger] cell(m, s, r, c) == cell(x, s, r + lr, c + lc) by {
        if 0 <= r < s && 0 <= c < s {
            lemma_shifted_cell(x, s, lr, lc, r, c);
        }
    }
}

/// Quarter turns of translates are translates.
pub proof fn lemma_translate_rotated(x: Seq<bool>, y: Seq<bool>, s: int, dr: int, dc: int)
    requires
        0 < s,
        x.len() == s * s,
        y.len() == s * s,
        translate_of(x, y, s, dr, dc),
    ensures
        translate_of(rotated(x, s), rotated(y, s), s, -dc, dr),
{
    let rx = rotated(x, s);
    let ry = rotated(y, s);
    assert forall|i: int, j: int| #[trigger] cell(ry, s, i, j) == cell(rx, s, i + dc, j - dr) by {
        if 0 <= i < s && 0 <= j < s {
            lemma_rotated_cell(y, s, i, j);
            assert(cell(y, s, j, s - 1 - i) == cell(x, s, j - dr, s - 1 - i - dc));
        }
        if 0 <= i + dc < s && 0 <= j - dr < s {
            lemma_rotated_cell(x, s, i + dc, j - dr);
            assert(cell(y, s, j, s - 1 - i) == cell(x, s, j - dr, s - 1 - i - dc));
        }
    }
}

/// Translates of one another meet at the same top-left form.
pub proof fn lemma_translates_move_alike(x: Seq<bool>, y: Seq<bool>, s: int, dr: int, dc: int)
    requires
        0 < s,
        x.len() == s * s,
        y.len() == s * s,
        occupied(x),
        translate_of(x, y, s, dr, dc),
    ensures
        moved_top_left(x, s) == moved_top_left(y, s),
{
    lemma_translate_occupied(x, y, s, dr, dc);
    lemma_leading_bounds(x, s);
    lemma_leading_bounds(y, s);
    lemma_moved_is_translate(x, s);
    lemma_moved_is_translate(y, s);
    let lrx = leading_rows_of(x, s);
    let lcx = leading_cols_of(x, s);
    let lry = leading_rows_of(y, s);
    let lcy = leading_cols_of(y, s);
    let c0 = choose|c: int| #[trigger] cell(x, s, lrx, c);
    assert(cell(y, s, lrx + dr, c0 + dc));
    let c1 = choose|c: int| #[trigger] cell(y, s, lry, c);
    assert(cell(x, s, lry - dr, c1 - dc));
    let r0 = choose|r: int| #[trigger] cell(x, s, r, lcx);
    assert(cell(y, s, r0 + dr, lcx + dc));
    let r1 = choose|r: int| #[trigger] cell(y, s, r, lcy);
    assert(cell(x, s, r1 - dr, lcy - dc));
    assert(lry == lrx + dr);
    assert(lcy == lcx + dc);
    let mx = moved_top_left(x, s);
    let my = moved_top_left(y, s);
    assert forall|r: int, c: int| 0 <= r < s && 0 <= c < s implies #[trigger] cell(mx, s, r, c) == cell(my, s, r, c) by {
        assert(cell(mx, s, r, c) == cell(x, s, r + lrx, c + lcx));
        assert(cell(my, s, r, c) == cell(y, s, r + lry, c + lcy));
    }
    lemma_grid_equal(mx, my, s);
}

/// Grids with the same top-left form keep the same top-left form when
/// turned.
pub proof fn lemma_moved_alike_rotated(x: Seq<bool>, y: Seq<bool>, s: int)
    requires
        0 < s,
        x.len() == s * s,
        y.len() == s * s,
        occupied(x),
        occupied(y),
        moved_top_left(x, s) == moved_top_left(y, s),
    ensures
        moved_top_left(rotated(x, s), s) == moved_top_left(rotated(y, s), s),
{
    lemma_moved_is_translate(x, s);
    lemma_moved_is_translate(y, s);
    let lrx = leading_rows_of(x, s);
    let lcx = leading_cols_of(x, s);
    let lry = leading_rows_of(y, s);
    let lcy = leading_cols_of(y, s);
    let m = moved_top_left(x, s);
    assert forall|r: int, c: int| #[trigger] cell(y, s, r, c) == cell(x, s, r - (lry - lrx), c - (lcy - lcx)) by {
        assert(cell(m, s, r - lry, c - lcy) == cell(y, s, r, c));
        assert(cell(m, s, r - lry, c - lcy) == cell(x, s, r - lry + lrx, c - lcy + lcx));
    }
    lemma_translate_rotated(x, y, s, lry - lrx, lcy - lcx);
    lemma_rotated_occupied(x, s);
    lemma_translates_move_alike(rotated(x, s), rotated(y, s), s, -(lcy - lcx), lry - lrx);
}

/// Grids with the same top-left form have the same canonical form.
pub proof fn lemma_moved_alike_canonical(x: Seq<bool>, y: Seq<bool>, s: int)
    requires
        0 < s,
        x.len() == s * s,
        y.len() == s * s,
        occupied(x),
        occupied(y),
        moved_top_left(x, s) == moved_top_left(y, s),
    ensures
        canonical(x, s) == canonical(y, s),
{
    let x1 = rotated(x, s);
    let y1 = rotated(y, s);
    let x2 = rotated(x1, s);
    let y2 = rotated(y1, s);
    lemma_moved_alike_rotated(x, y, s);
    lemma_rotated_occupied(x, s);
    lemma_rotated_occupied(y, s);
    lemma_moved_alike_rotated(x1, y1, s);
    lemma_rotated_occupied(x1, s);
    lemma_rotated_occupied(y1, s);
    lemma_moved_alike_rotated(x2, y2, s);
}

pub proof fn lemma_lex_less_transitive(a: Seq<bool>, b: Seq<bool>, c: Seq<bool>)
    requires
        lex_cmp(a, b) == Ordering::Less,
        lex_cmp(b, c) == Ordering::Less,
    ensures
        lex_cmp(a, c) == Ordering::Less,
{
    lemma_lex_antisymmetric(b, a);
    lemma_lex_antisymmetric(c, b);
    lemma_lex_transitive(c, b, a);
    lemma_lex_antisymmetric(c, a);
}

} // verus!
