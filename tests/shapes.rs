use polycube::{
    canonicalize, cell_at, children, crop, move_top_left, nudge_top_left, pad_all_sides,
    potential_cube_placements, rotate90, rotations, Generation, Grid,
};

fn grid(bits: &[u8]) -> Grid {
    let v: Vec<bool> = bits.iter().map(|&b| b == 1).collect();
    Grid::from_bools(&v)
}

fn bits(g: &Grid) -> Vec<u8> {
    g.to_bools().iter().map(|&b| u8::from(b)).collect()
}

fn sorted_distinct(gs: &[Grid]) -> Vec<Vec<u8>> {
    let mut v: Vec<Vec<u8>> = gs.iter().map(bits).collect();
    v.sort();
    v.dedup();
    v
}

#[test]
fn children_test() {
    let children = sorted_distinct(&children(grid(&[1]), 1));
    assert_eq!(children, vec![vec![1, 1, 0, 0]]);
}

#[test]
fn second_generation_children_test() {
    let children = sorted_distinct(&children(grid(&[1, 1, 0, 0]), 2));
    assert_eq!(
        children,
        vec![vec![1, 1, 0, 1, 0, 0, 0, 0, 0], vec![1, 1, 1, 0, 0, 0, 0, 0, 0]]
    );
}

#[test]
fn canonicalize_test() {
    let c = canonicalize(grid(&[0, 1, 0, 1]), 2);
    assert_eq!(bits(&c), vec![1, 1, 0, 0]);

    let c = canonicalize(grid(&[0, 0, 0, 0, 1, 0, 0, 1, 0]), 3);
    assert_eq!(bits(&c), vec![1, 1, 0, 0, 0, 0, 0, 0, 0]);

    let c = canonicalize(grid(&[1, 1, 0, 0, 1, 0, 0, 0, 0, 0, 0, 0, 0, 0, 0, 0]), 4);
    assert_eq!(bits(&c), vec![1, 1, 0, 0, 1, 0, 0, 0, 0, 0, 0, 0, 0, 0, 0, 0]);
}

#[test]
fn move_top_left_test() {
    let mut b = grid(&[0, 1, 0, 1]);
    move_top_left(&mut b, 2);
    assert_eq!(bits(&b), vec![1, 0, 1, 0]);

    let mut b = grid(&[0, 1, 0, 0, 0, 1, 1, 0, 0, 0, 0, 0, 0, 0, 0, 0]);
    move_top_left(&mut b, 4);
    assert_eq!(bits(&b), vec![1, 0, 0, 0, 1, 1, 0, 0, 0, 0, 0, 0, 0, 0, 0, 0]);

    let mut b = grid(&[0, 0, 0, 0, 0, 1, 1, 1, 0, 0, 0, 0, 0, 0, 0, 0]);
    move_top_left(&mut b, 4);
    assert_eq!(bits(&b), vec![1, 1, 1, 0, 0, 0, 0, 0, 0, 0, 0, 0, 0, 0, 0, 0]);
}

#[test]
fn potential_cube_placements_test() {
    let (padded, placements) = potential_cube_placements(grid(&[1]), 1);
    assert_eq!(bits(&padded), vec![0, 0, 0, 0, 1, 0, 0, 0, 0]);
    assert_eq!(bits(&placements), vec![0, 1, 0, 1, 0, 1, 0, 1, 0]);
}

#[test]
fn pad_out_test() {
    let p = pad_all_sides(grid(&[1]), 1);
    assert_eq!(bits(&p), vec![0, 0, 0, 0, 1, 0, 0, 0, 0]);

    let p = pad_all_sides(grid(&[1, 1, 1, 0]), 2);
    assert_eq!(bits(&p), vec![0, 0, 0, 0, 0, 1, 1, 0, 0, 1, 0, 0, 0, 0, 0, 0]);
}

#[test]
fn placements_do_not_wrap_across_rows() {
    // A shape touching the right edge: the cell past the row end must not
    // appear at the start of the next row.
    let (_, placements) = potential_cube_placements(grid(&[0, 1, 0, 1]), 2);
    assert_eq!(
        bits(&placements),
        vec![0, 0, 1, 0, 0, 1, 0, 1, 0, 1, 0, 1, 0, 0, 1, 0]
    );
}

#[test]
fn placements_of_an_empty_grid_are_empty() {
    let (padded, placements) = potential_cube_placements(grid(&[0, 0, 0, 0]), 2);
    assert_eq!(bits(&padded), vec![0; 16]);
    assert_eq!(bits(&placements), vec![0; 16]);
    assert!(children(grid(&[0, 0, 0, 0]), 2).is_empty());
}

#[test]
fn rotate90_turns_a_quarter() {
    let r = rotate90(&grid(&[1, 1, 0, 0, 0, 0, 0, 0, 0]), 3);
    assert_eq!(bits(&r), vec![0, 0, 0, 1, 0, 0, 1, 0, 0]);
    let r = rotate90(&grid(&[1, 0, 0, 0]), 2);
    assert_eq!(bits(&r), vec![0, 0, 1, 0]);
}

#[test]
fn rotations_return_all_four_turns() {
    let r = rotations(grid(&[1, 1, 1, 0, 0, 0, 0, 0, 0]), 3);
    assert_eq!(bits(&r[0]), vec![1, 1, 1, 0, 0, 0, 0, 0, 0]);
    assert_eq!(bits(&r[1]), vec![1, 0, 0, 1, 0, 0, 1, 0, 0]);
    assert_eq!(bits(&r[2]), vec![0, 0, 0, 0, 0, 0, 1, 1, 1]);
    assert_eq!(bits(&r[3]), vec![0, 0, 1, 0, 0, 1, 0, 0, 1]);
}

#[test]
fn crop_keeps_the_top_left_window() {
    let c = crop(&grid(&[1, 1, 0, 0, 1, 0, 0, 0, 0]), 3, 2);
    assert_eq!(bits(&c), vec![1, 1, 0, 1]);
    let c = crop(&grid(&[0, 1, 1, 0]), 2, 2);
    assert_eq!(bits(&c), vec![0, 1, 1, 0]);
}

#[test]
fn nudge_moves_at_most_one_row_and_column() {
    let mut b = grid(&[0, 0, 0, 0, 0, 1, 0, 0, 1]);
    nudge_top_left(&mut b, 3);
    assert_eq!(bits(&b), vec![0, 1, 0, 0, 1, 0, 0, 0, 0]);
    let mut b = grid(&[0, 1, 0, 0, 1, 0, 0, 0, 0]);
    nudge_top_left(&mut b, 3);
    assert_eq!(bits(&b), vec![1, 0, 0, 1, 0, 0, 0, 0, 0]);
    let mut b = grid(&[1, 0, 0, 0]);
    nudge_top_left(&mut b, 2);
    assert_eq!(bits(&b), vec![1, 0, 0, 0]);
}

#[test]
fn generation_counts_grow() {
    let mut g = Generation::default();
    assert_eq!(g.age, 1);
    assert_eq!(g.shapes.len(), 1);
    g.advance();
    assert_eq!(g.age, 2);
    assert_eq!(g.shapes.len(), 1);
    g.advance();
    assert_eq!(g.age, 3);
    assert_eq!(g.shapes.len(), 2);
    g.advance();
    assert_eq!(g.age, 4);
    assert_eq!(g.shapes.len(), 7);
    g.advance();
    assert_eq!(g.shapes.len(), 18);
}

#[test]
fn third_generation_shapes() {
    let mut g = Generation::default();
    g.advance();
    g.advance();
    assert_eq!(g.shapes.len(), 2);
    assert_eq!(
        sorted_distinct(&g.shapes),
        vec![vec![1, 1, 0, 1, 0, 0, 0, 0, 0], vec![1, 1, 1, 0, 0, 0, 0, 0, 0]]
    );
}

#[test]
fn collect_next_drops_repeats() {
    let mut g = Generation::default();
    g.collect_next(vec![
        vec![grid(&[1, 1, 0, 0]), grid(&[1, 1, 0, 0])],
        vec![grid(&[1, 0, 1, 0]), grid(&[1, 1, 0, 0])],
    ]);
    assert_eq!(g.age, 2);
    assert_eq!(sorted_distinct(&g.shapes), vec![vec![1, 0, 1, 0], vec![1, 1, 0, 0]]);
    assert_eq!(g.shapes.len(), 2);
}

#[test]
fn canonicalize_is_idempotent_and_turn_invariant() {
    let g = grid(&[0, 0, 0, 0, 1, 0, 0, 1, 1]);
    let c = canonicalize(g.clone(), 3);
    assert_eq!(bits(&canonicalize(c.clone(), 3)), bits(&c));
    for r in rotations(g, 3) {
        assert_eq!(bits(&canonicalize(r, 3)), bits(&c));
    }
    assert_eq!(bits(&c), vec![1, 1, 0, 1, 0, 0, 0, 0, 0]);
}

#[test]
fn crop_undoes_padding_after_the_nudge() {
    let g = grid(&[0, 1, 1, 1]);
    let mut p = pad_all_sides(g, 2);
    nudge_top_left(&mut p, 4);
    assert_eq!(bits(&crop(&p, 4, 2)), vec![0, 1, 1, 1]);
    let e = grid(&[0, 0, 0, 0]);
    assert_eq!(bits(&crop(&pad_all_sides(e, 2), 4, 2)), vec![0, 0, 0, 0]);
}

#[test]
fn cell_at_reads_rows_and_reports_short_grids() {
    let g = grid(&[0, 1, 1, 0, 0, 0, 1, 0, 0]);
    assert_eq!(cell_at(&g, 3, 0, 1), Some(true));
    assert_eq!(cell_at(&g, 3, 0, 2), Some(true));
    assert_eq!(cell_at(&g, 3, 1, 0), Some(false));
    assert_eq!(cell_at(&g, 3, 2, 0), Some(true));
    assert_eq!(cell_at(&g, 3, 2, 2), Some(false));
    assert_eq!(cell_at(&grid(&[1, 0]), 2, 1, 0), None);
}
