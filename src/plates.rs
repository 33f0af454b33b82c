use vstd::prelude::*;
use crate::tiles::{TileSet, GridCoord};

verus! {

/// A horizontal run of flagged cells in one row: columns `left..=right`.
/// The row is kept apart, so two plates of different rows with the same
/// columns are equal.
#[derive(Clone, Copy, Debug, PartialEq, Eq, Hash)]
pub struct Plate {
    pub left: i32,
    pub right: i32,
}

/// Column `x` lies in the plate.
pub open spec fn plate_holds(p: Plate, x: int) -> bool {
    p.left <= x <= p.right
}

/// Columns `left..=right` of row `y` are a maximal run of cells of `s` in a
/// grid `width` cells wide: all of them are in `s`, and neither neighbour in
/// the row is (or it lies outside the grid).
pub open spec fn is_run(s: Set<(int, int)>, width: int, y: int, left: int, right: int) -> bool {
    &&& 0 <= left <= right < width
    &&& forall|x: int| left <= x <= right ==> #[trigger] s.contains((x, y))
    &&& (left == 0 || !s.contains((left - 1, y)))
    &&& (right == width - 1 || !s.contains((right + 1, y)))
}

/// `ps` lists the maximal runs of row `y`, each once, from left to right.
pub open spec fn is_row_plates(s: Set<(int, int)>, width: int, y: int, ps: Seq<Plate>) -> bool {
    &&& forall|i: int|
        0 <= i < ps.len() ==> is_run(s, width, y, #[trigger] ps[i].left as int, ps[i].right as int)
    &&& forall|i: int, j: int| 0 <= i < j < ps.len() ==> #[trigger] ps[i].right < #[trigger] ps[j].left
    &&& forall|x: int|
        0 <= x < width && #[trigger] s.contains((x, y)) ==> exists|i: int|
            0 <= i < ps.len() && #[trigger] plate_holds(ps[i], x)
}

/// Two maximal runs of one row that share a cell are the same run.
pub proof fn lemma_runs_meet(
    s: Set<(int, int)>,
    width: int,
    y: int,
    l1: int,
    r1: int,
    l2: int,
    r2: int,
    x: int,
)
    requires
        is_run(s, width, y, l1, r1),
        is_run(s, width, y, l2, r2),
        l1 <= x <= r1,
        l2 <= x <= r2,
    ensures
        l1 == l2,
        r1 == r2,
{
    if l1 < l2 {
        assert(s.contains((l2 - 1, y)));
    }
    if l2 < l1 {
        assert(s.contains((l1 - 1, y)));
    }
    if r1 < r2 {
        assert(s.contains((r1 + 1, y)));
    }
    if r2 < r1 {
        assert(s.contains((r2 + 1, y)));
    }
}

/// Every maximal run of row `y` stands in that row's plate list.
pub proof fn lemma_run_listed(s: Set<(int, int)>, width: int, y: int, ps: Seq<Plate>, left: int, right: int)
    requires
        is_row_plates(s, width, y, ps),
        is_run(s, width, y, left, right),
    ensures
        exists|i: int| 0 <= i < ps.len() && ps[i].left == left && ps[i].right == right,
{
    assert(s.contains((left, y)));
    let i = choose|i: int| 0 <= i < ps.len() && plate_holds(ps[i], left);
    assert(is_run(s, width, y, ps[i].left as int, ps[i].right as int));
    lemma_runs_meet(s, width, y, ps[i].left as int, ps[i].right as int, left, right, left);
}

/// The leftmost column of the run of cells of `s` in row `y` that reaches
/// column `x`.
proof fn run_left_end(s: Set<(int, int)>, y: int, x: int) -> (l: int)
    requires
        0 <= x,
        s.contains((x, y)),
    ensures
        0 <= l <= x,
        l == 0 || !s.contains((l - 1, y)),
        forall|z: int| l <= z <= x ==> #[trigger] s.contains((z, y)),
    decreases x,
{
    if x == 0 || !s.contains((x - 1, y)) {
        x
    } else {
        let l = run_left_end(s, y, x - 1);
        assert forall|z: int| l <= z <= x implies #[trigger] s.contains((z, y)) by {
            if z < x {
                assert(s.contains((z, y)));
            }
        }
        l
    }
}

/// The rightmost column, inside a grid `width` cells wide, of the run of
/// cells of `s` in row `y` that reaches column `x`.
proof fn run_right_end(s: Set<(int, int)>, width: int, y: int, x: int) -> (r: int)
    requires
        x < width,
        s.contains((x, y)),
    ensures
        x <= r < width,
        r == width - 1 || !s.contains((r + 1, y)),
        forall|z: int| x <= z <= r ==> #[trigger] s.contains((z, y)),
    decreases width - x,
{
    if x == width - 1 || !s.contains((x + 1, y)) {
        x
    } else {
        let r = run_right_end(s, width, y, x + 1);
        assert forall|z: int| x <= z <= r implies #[trigger] s.contains((z, y)) by {
            if z > x {
                assert(s.contains((z, y)));
            }
        }
        r
    }
}

/// Every cell of `s` inside the grid lies in a maximal run of its row.
pub proof fn lemma_run_around(s: Set<(int, int)>, width: int, y: int, x: int)
    requires
        0 <= x < width,
        s.contains((x, y)),
    ensures
        exists|l: int, r: int| #[trigger] is_run(s, width, y, l, r) && l <= x <= r,
{
    let l = run_left_end(s, y, x);
    let r = run_right_end(s, width, y, x);
    assert forall|z: int| l <= z <= r implies #[trigger] s.contains((z, y)) by {
        if z <= x {
            assert(s.contains((z, y)));
        } else {
            assert(s.contains((z, y)));
        }
    }
    assert(is_run(s, width, y, l, r));
}

/// A row that holds no cell of `s` has no plates.
pub proof fn lemma_empty_row(s: Set<(int, int)>, width: int, y: int)
    requires
        forall|x: int| !s.contains((x, y)),
    ensures
        is_row_plates(s, width, y, Seq::<Plate>::empty()),
{
}

/// Scans row `y` from left to right and returns its maximal runs of flagged
/// cells. The column just past the right edge counts as unflagged, so a run
/// that touches the edge is closed there.
pub fn row_plates(flagged: &TileSet, width: i32, y: i32) -> (r: Vec<Plate>)
    ensures
        is_row_plates(flagged@, width as int, y as int, r@),
{
    let ghost s = flagged@;
    let mut plates: Vec<Plate> = Vec::new();
    let mut start: Option<i32> = None;
    let mut x: i32 = 0;
    while x < width
        invariant
            s == flagged@,
            0 <= x,
            x <= width || x == 0,
            forall|i: int|
                0 <= i < plates@.len() ==> is_run(s, width as int, y as int, #[trigger] plates@[i].left as int, plates@[i].right as int),
            forall|i: int, j: int| 0 <= i < j < plates@.len() ==> #[trigger] plates@[i].right < #[trigger] plates@[j].left,
            forall|i: int| 0 <= i < plates@.len() ==> #[trigger] plates@[i].right + 2 <= x,
            match start {
                Some(b) => {
                    &&& 0 <= b < x
                    &&& (b == 0 || !s.contains((b - 1, y as int)))
                    &&& forall|c: int| b <= c < x ==> #[trigger] s.contains((c, y as int))
                    &&& forall|i: int| 0 <= i < plates@.len() ==> #[trigger] plates@[i].right + 2 <= b
                },
                None => x == 0 || !s.contains((x - 1, y as int)),
            },
            forall|c: int|
                0 <= c < x && #[trigger] s.contains((c, y as int)) ==> (exists|i: int|
                    0 <= i < plates@.len() && #[trigger] plate_holds(plates@[i], c)) || (match start {
                    Some(b) => b <= c,
                    None => false,
                }),
        decreases width - x,
    {
        let here = flagged.contains(GridCoord { x, y });
        match start {
            Some(b) => {
                if !here {
                    let ghost old_plates = plates@;
                    plates.push(Plate { left: b, right: x - 1 });
                    proof {
                        assert forall|c: int|
                            0 <= c < x + 1 && #[trigger] s.contains((c, y as int)) implies exists|i: int|
                            0 <= i < plates@.len() && #[trigger] plate_holds(plates@[i], c) by {
                            if b <= c {
                                assert(plate_holds(plates@[plates@.len() - 1], c));
                            } else {
                                let i = choose|i: int|
                                    0 <= i < old_plates.len() && plate_holds(old_plates[i], c);
                                assert(plates@[i] == old_plates[i]);
                    assert(plate_holds(plates@[i], c));
                            }
                        }
                    }
                    start = None;
                }
            },
            None => {
                if here {
                    start = Some(x);
                }
            },
        }
        x += 1;
    }
    if let Some(b) = start {
        let ghost old_plates = plates@;
        plates.push(Plate { left: b, right: width - 1 });
        proof {
            assert forall|c: int|
                0 <= c < width && #[trigger] s.contains((c, y as int)) implies exists|i: int|
                0 <= i < plates@.len() && #[trigger] plate_holds(plates@[i], c) by {
                if b <= c {
                    assert(plate_holds(plates@[plates@.len() - 1], c));
                } else {
                    let i = choose|i: int|
                        0 <= i < old_plates.len() && plate_holds(old_plates[i], c);
                    assert(plates@[i] == old_plates[i]);
                    assert(plate_holds(plates@[i], c));
                }
            }
        }
    }
    plates
}

} // verus!
