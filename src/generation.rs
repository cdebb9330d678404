use vstd::prelude::*;

use crate::grid::Grid;
use core::cmp::Ordering;

use crate::canon::lemma_canonical_idempotent;
use crate::model::{
    cell, lemma_grid_equal, lemma_leading_bounds, lemma_moved_is_translate, lemma_rotated_cell,
    moved_top_left, rotated, canonical, child, cropped, lemma_child_fits, nudged, padded, placements,
    children_of, lemma_lex_antisymmetric, lemma_lex_less_transitive, lemma_lex_transitive, lex_cmp,
};
use crate::placements::children;

verus! {

/// The distinct shapes of one cell count, each on a grid whose side is that
/// count; `default` and `advance` leave every shape in canonical form.
#[derive(Clone)]
pub struct Generation {
    pub shapes: Vec<Grid>,
    pub age: usize,
}

/// The bit sequences held by a list of grids.
pub open spec fn views_of(shapes: Seq<Grid>) -> Set<Seq<bool>> {
    Set::new(|x: Seq<bool>| exists|k: int| 0 <= k < shapes.len() && #[trigger] shapes[k]@ == x)
}

/// Whether the grids are in strictly increasing bit order.
pub open spec fn strictly_sorted(shapes: Seq<Grid>) -> bool {
    forall|i: int, j: int|
        0 <= i < j < shapes.len() ==> lex_cmp(#[trigger] shapes[i]@, #[trigger] shapes[j]@)
            == Ordering::Less
}

/// Whether no two grids of the list hold the same bits.
pub open spec fn all_distinct(shapes: Seq<Grid>) -> bool {
    forall|j: int, k: int|
        0 <= j < shapes.len() && 0 <= k < shapes.len() && j != k ==> #[trigger] shapes[j]@
            != #[trigger] shapes[k]@
}

/// Whether every grid of the list, read with side `side`, is its own
/// canonical form.
pub open spec fn all_canonical(shapes: Seq<Grid>, side: int) -> bool {
    forall|k: int| 0 <= k < shapes.len() ==> canonical(#[trigger] shapes[k]@, side) == shapes[k]@
}

/// Every shape reachable by adding one cell to one of `shapes`, all of side
/// `age`.
pub open spec fn next_shapes(shapes: Seq<Grid>, age: int) -> Set<Seq<bool>> {
    Set::new(
        |x: Seq<bool>|
            exists|k: int|
                0 <= k < shapes.len() && #[trigger] children_of(shapes[k]@, age).contains(x),
    )
}

impl Default for Generation {
    /// The first generation: the single-cell shape.
    fn default() -> (r: Self)
        ensures
            r.wf(),
            all_canonical(r.shapes@, 1),
            r.age == 1,
            r.shapes.len() == 1,
            r.shapes[0]@ == seq![true],
    {
        let mut single = Grid::zeros(1);
        single.set(0, true);
        proof {
            let g = single@;
            assert(g =~= seq![true]);
            assert(g[0]);
            lemma_rotated_cell(g, 1, 0, 0);
            lemma_grid_equal(rotated(g, 1), g, 1);
            lemma_leading_bounds(g, 1);
            lemma_moved_is_translate(g, 1);
            assert(cell(moved_top_left(g, 1), 1, 0, 0) == cell(g, 1, 0, 0));
            lemma_grid_equal(moved_top_left(g, 1), g, 1);
        }
        Generation { shapes: vec![single], age: 1 }
    }
}

impl Generation {
    /// Grows every shape by one cell in every possible way and keeps the
    /// distinct results, which form the next generation.
    pub fn advance(&mut self)
        requires
            old(self).wf(),
            8 * ((old(self).age + 2) * (old(self).age + 2)) <= usize::MAX,
        ensures
            final(self).wf(),
            final(self).age == old(self).age + 1,
            final(self).shape_set() == next_shapes(old(self).shapes@, old(self).age as int),
            all_canonical(final(self).shapes@, final(self).age as int),
    {
        let ghost shapes0 = self.shapes@;
        let ghost age0 = self.age as int;
        let mut batches: Vec<Vec<Grid>> = Vec::new();
        let mut k: usize = 0;
        while k < self.shapes.len()
            invariant
                self.wf(),
                self.shapes@ == shapes0,
                self.age == age0,
                8 * ((age0 + 2) * (age0 + 2)) <= usize::MAX,
                0 <= k <= self.shapes.len(),
                batches.len() == k,
                forall|b: int, j: int|
                    0 <= b < k && 0 <= j < batches[b].len() ==> children_of(shapes0[b]@, age0).contains(
                        #[trigger] batches[b][j]@,
                    ),
                forall|b: int, j: int|
                    0 <= b < k && 0 <= j < batches[b].len() ==> (#[trigger] batches[b][j])@.len() == (age0
                        + 1) * (age0 + 1),
                forall|b: int, x: Seq<bool>|
                    0 <= b < k && #[trigger] children_of(shapes0[b]@, age0).contains(x) ==> exists|j: int|
                        0 <= j < batches[b].len() && #[trigger] batches[b][j]@ == x,
            decreases self.shapes.len() - k,
        {
            let parent = self.shapes[k].clone();
            let c = children(parent, self.age);
            proof {
                assert(parent@ == shapes0[k as int]@);
            }
            let ghost before = batches@;
            batches.push(c);
            k = k + 1;
            proof {
                assert forall|b: int, x: Seq<bool>|
                    0 <= b < k && #[trigger] children_of(shapes0[b]@, age0).contains(x) implies exists|j: int|
                        0 <= j < batches[b].len() && #[trigger] batches[b][j]@ == x by {
                    if b == k - 1 {
                        assert(children_of(parent@, age0).contains(x));
                        let j = choose|j: int| 0 <= j < c.len() && #[trigger] c[j]@ == x;
                        assert(batches[b] == c);
                        assert(batches[b][j] == c[j]);
                    } else {
                        assert(batches[b] == before[b]);
                        let j = choose|j: int| 0 <= j < before[b].len() && #[trigger] before[b][j]@ == x;
                        assert(batches[b][j]@ == x);
                    }
                }
            }
        }
        proof {
            assert(age0 + 2 <= (age0 + 2) * (age0 + 2)) by (nonlinear_arith)
                requires
                    age0 >= 1,
            ;
        }
        self.collect_next(batches);
        proof {
            assert forall|x: Seq<bool>| #[trigger] self.shape_set().contains(x) == next_shapes(shapes0, age0).contains(x) by {
                if next_shapes(shapes0, age0).contains(x) {
                    let b = choose|b: int| 0 <= b < shapes0.len() && #[trigger] children_of(shapes0[b]@, age0).contains(x);
                    let j = choose|j: int| 0 <= j < batches[b].len() && #[trigger] batches[b][j]@ == x;
                    assert(batches[b][j]@ == x);
                }
                if self.shape_set().contains(x) {
                    let (b, j) = choose|b: int, j: int| 0 <= b < batches.len() && 0 <= j < batches[b].len() && #[trigger] batches[b][j]@ == x;
                    assert(children_of(shapes0[b]@, age0).contains(batches[b][j]@));
                }
            }
            assert(self.shape_set() =~= next_shapes(shapes0, age0));
            assert forall|k: int| 0 <= k < self.shapes.len() implies canonical(
                #[trigger] self.shapes[k]@,
                age0 + 1,
            ) == self.shapes[k]@ by {
                let x = self.shapes[k]@;
                assert(self.shape_set().contains(x));
                let b = choose|b: int|
                    0 <= b < shapes0.len() && #[trigger] children_of(shapes0[b]@, age0).contains(x);
                let g = shapes0[b]@;
                let i = choose|i: int|
                    0 <= i < (age0 + 2) * (age0 + 2) && placements(g, age0)[i] && x == child(g, age0, i);
                lemma_child_fits(g, age0, i);
                let w = age0 + 2;
                lemma_canonical_idempotent(
                    cropped(nudged(padded(g, age0).update(i, true), w), w, age0 + 1),
                    age0 + 1,
                );
            }
        }
    }

    /// The shapes are distinct and all lie on grids of side `age`.
    pub open spec fn wf(&self) -> bool {
        &&& self.age >= 1
        &&& all_distinct(self.shapes@)
        &&& forall|k: int| 0 <= k < self.shapes.len() ==> (#[trigger] self.shapes[k])@.len() == self.age * self.age
    }

    /// The set of shapes held.
    pub open spec fn shape_set(&self) -> Set<Seq<bool>> {
        views_of(self.shapes@)
    }

    /// Replaces the shapes by the distinct grids among `batches`, one
    /// cell larger, and counts the age up by one.
    pub fn collect_next(&mut self, batches: Vec<Vec<Grid>>)
        requires
            old(self).age < usize::MAX,
            forall|b: int, k: int|
                0 <= b < batches.len() && 0 <= k < batches[b].len() ==> (#[trigger] batches[b][k])@.len()
                    == (old(self).age + 1) * (old(self).age + 1),
        ensures
            final(self).wf(),
            strictly_sorted(final(self).shapes@),
            final(self).age == old(self).age + 1,
            final(self).shape_set() == Set::new(
                |x: Seq<bool>|
                    exists|b: int, k: int|
                        0 <= b < batches.len() && 0 <= k < batches[b].len() && #[trigger] batches[b][k]@ == x,
            ),
    {
        let ghost size = (self.age + 1) * (self.age + 1);
        let mut next: Vec<Grid> = Vec::new();
        let mut b: usize = 0;
        while b < batches.len()
            invariant
                0 <= b <= batches.len(),
                strictly_sorted(next@),
                forall|k: int| 0 <= k < next.len() ==> (#[trigger] next[k])@.len() == size,
                forall|b: int, k: int|
                    0 <= b < batches.len() && 0 <= k < batches[b].len() ==> (#[trigger] batches[b][k])@.len()
                        == size,
                views_of(next@) == Set::new(
                    |x: Seq<bool>|
                        exists|b2: int, k: int|
                            0 <= b2 < b && 0 <= k < batches[b2].len() && #[trigger] batches[b2][k]@ == x,
                ),
            decreases batches.len() - b,
        {
            let batch = &batches[b];
            let mut k: usize = 0;
            while k < batch.len()
                invariant
                    0 <= b < batches.len(),
                    batch == batches[b as int],
                    0 <= k <= batch.len(),
                    strictly_sorted(next@),
                    forall|k2: int| 0 <= k2 < next.len() ==> (#[trigger] next[k2])@.len() == size,
                    forall|b: int, k: int|
                        0 <= b < batches.len() && 0 <= k < batches[b].len() ==> (#[trigger] batches[b][k])@.len()
                            == size,
                    views_of(next@) == Set::new(
                        |x: Seq<bool>|
                            exists|b2: int, k2: int|
                                (0 <= b2 < b && 0 <= k2 < batches[b2].len() || b2 == b && 0 <= k2 < k)
                                    && #[trigger] batches[b2][k2]@ == x,
                    ),
                decreases batch.len() - k,
            {
                insert_sorted(&mut next, &batch[k]);
                proof {
                    assert(batches[b as int][k as int]@.len() == size);
                }
                k = k + 1;
                proof {
                    assert(views_of(next@) =~= Set::new(
                        |x: Seq<bool>|
                            exists|b2: int, k2: int|
                                (0 <= b2 < b && 0 <= k2 < batches[b2].len() || b2 == b && 0 <= k2 < k)
                                    && #[trigger] batches[b2][k2]@ == x,
                    ));
                }
            }
            b = b + 1;
            proof {
                assert(views_of(next@) =~= Set::new(
                    |x: Seq<bool>|
                        exists|b2: int, k: int|
                            0 <= b2 < b && 0 <= k < batches[b2].len() && #[trigger] batches[b2][k]@ == x,
                ));
            }
        }
        proof {
            lemma_sorted_distinct(next@);
        }
        self.shapes = next;
        self.age = self.age + 1;
    }
}

/// Inserts a copy of `g` at its place in bit order, unless a grid with the
/// same bits is already there.
fn insert_sorted(shapes: &mut Vec<Grid>, g: &Grid)
    requires
        strictly_sorted(old(shapes)@),
    ensures
        strictly_sorted(final(shapes)@),
        views_of(final(shapes)@) == views_of(old(shapes)@).insert(g@),
        forall|k: int|
            0 <= k < final(shapes).len() ==> (#[trigger] final(shapes)[k])@ == g@ || exists|j: int|
                0 <= j < old(shapes).len() && old(shapes)[j]@ == final(shapes)[k]@,
{
    let mut lo: usize = 0;
    let mut hi: usize = shapes.len();
    while lo < hi
        invariant
            0 <= lo <= hi <= shapes.len(),
            shapes@ == old(shapes)@,
            strictly_sorted(shapes@),
            forall|i: int| 0 <= i < lo ==> lex_cmp(#[trigger] shapes[i]@, g@) == Ordering::Less,
            forall|i: int| hi <= i < shapes.len() ==> lex_cmp(#[trigger] shapes[i]@, g@) == Ordering::Greater,
        decreases hi - lo,
    {
        let mid = lo + (hi - lo) / 2;
        match shapes[mid].compare(g) {
            Ordering::Equal => {
                proof {
                    lemma_lex_antisymmetric(shapes[mid as int]@, g@);
                    assert(views_of(shapes@) =~= views_of(shapes@).insert(g@));
                }
                return;
            },
            Ordering::Less => {
                proof {
                    assert forall|i: int| 0 <= i < mid + 1 implies lex_cmp(#[trigger] shapes[i]@, g@)
                        == Ordering::Less by {
                        if i < mid {
                            lemma_lex_less_transitive(shapes[i]@, shapes[mid as int]@, g@);
                        }
                    }
                }
                lo = mid + 1;
            },
            Ordering::Greater => {
                proof {
                    assert forall|i: int| mid <= i < shapes.len() implies lex_cmp(#[trigger] shapes[i]@, g@)
                        == Ordering::Greater by {
                        if i > mid {
                            assert(lex_cmp(shapes[mid as int]@, shapes[i]@) == Ordering::Less);
                            lemma_lex_antisymmetric(shapes[i]@, shapes[mid as int]@);
                            lemma_lex_transitive(shapes[i]@, shapes[mid as int]@, g@);
                        }
                    }
                }
                hi = mid;
            },
        }
    }
    let ghost before = shapes@;
    shapes.insert(lo, g.clone());
    proof {
        let after = shapes@;
        assert(after =~= before.insert(lo as int, after[lo as int]));
        assert(after[lo as int]@ == g@);
        assert forall|i: int, j: int| 0 <= i < j < after.len() implies lex_cmp(#[trigger] after[i]@, #[trigger] after[j]@) == Ordering::Less by {
            if j < lo {
                assert(after[i] == before[i] && after[j] == before[j]);
            } else if j == lo {
                assert(after[i] == before[i]);
            } else if i == lo {
                assert(after[j] == before[j - 1]);
                lemma_lex_antisymmetric(before[j - 1]@, g@);
            } else if i < lo {
                assert(after[i] == before[i] && after[j] == before[j - 1]);
            } else {
                assert(after[i] == before[i - 1] && after[j] == before[j - 1]);
            }
        }
        assert forall|x: Seq<bool>| views_of(after).contains(x) == views_of(before).insert(g@).contains(x) by {
            if views_of(before).contains(x) {
                let j = choose|j: int| 0 <= j < before.len() && #[trigger] before[j]@ == x;
                if j < lo {
                    assert(after[j] == before[j]);
                } else {
                    assert(after[j + 1] == before[j]);
                }
            }
            if views_of(after).contains(x) {
                let j = choose|j: int| 0 <= j < after.len() && #[trigger] after[j]@ == x;
                if j < lo {
                    assert(after[j] == before[j]);
                } else if j > lo {
                    assert(after[j] == before[j - 1]);
                }
            }
        }
        assert(views_of(after) =~= views_of(before).insert(g@));
        assert forall|k: int| 0 <= k < after.len() implies (#[trigger] after[k])@ == g@ || exists|j: int|
            0 <= j < before.len() && before[j]@ == after[k]@ by {
            if k < lo {
                assert(after[k] == before[k]);
            } else if k > lo {
                assert(after[k] == before[k - 1]);
            }
        }
    }
}

/// A strictly sorted list holds no grid twice.
proof fn lemma_sorted_distinct(shapes: Seq<Grid>)
    requires
        strictly_sorted(shapes),
    ensures
        all_distinct(shapes),
{
    assert forall|j: int, k: int|
        0 <= j < shapes.len() && 0 <= k < shapes.len() && j != k implies #[trigger] shapes[j]@
            != #[trigger] shapes[k]@ by {
        if j < k {
            lemma_lex_antisymmetric(shapes[j]@, shapes[k]@);
        } else {
            lemma_lex_antisymmetric(shapes[k]@, shapes[j]@);
        }
    }
}

} // verus!
