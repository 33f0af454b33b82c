use vstd::prelude::*;
use crate::tiles::{TileSet, in_grid, cell_in_grid};
use crate::plates::{Plate, is_run, is_row_plates, row_plates, lemma_empty_row};
use crate::rects::{Rect, is_stack, holds_run, open_ok, closed_ok, covered_ok, merge_row};

verus! {

/// Why a collision mesh could not be built.
#[derive(Clone, Copy, Debug, PartialEq, Eq, Structural)]
pub enum BuildError {
    /// The grid has a negative side, or a flagged cell lies outside it.
    InvalidInput,
}

/// The grid has no negative side and holds every cell of `s`.
pub open spec fn valid_input(s: Set<(int, int)>, width: int, height: int) -> bool {
    &&& width >= 0
    &&& height >= 0
    &&& in_grid(s, width, height)
}

/// `rs` is the collision mesh of `s` in a grid `width` cells wide: each
/// rectangle is a maximal vertical stack of one maximal row run, none comes
/// twice, and every maximal run of every row lies in one of them.
pub open spec fn is_mesh(s: Set<(int, int)>, width: int, rs: Seq<Rect>) -> bool {
    &&& forall|k: int| 0 <= k < rs.len() ==> is_stack(s, width, #[trigger] rs[k])
    &&& rs.no_duplicates()
    &&& forall|y: int, l: int, r: int|
        #[trigger] is_run(s, width, y, l, r) ==> exists|k: int| 0 <= k < rs.len() && #[trigger] holds_run(rs[k], y, l, r)
}

/// Every rectangle of `rs` lies inside the grid `[0, width) x [0, height)`.
pub open spec fn rects_in_grid(rs: Seq<Rect>, width: int, height: int) -> bool {
    forall|k: int|
        0 <= k < rs.len() ==> 0 <= #[trigger] rs[k].left <= rs[k].right < width && 0 <= rs[k].bottom <= rs[k].top < height
}

/// What `build` returns for the cells `s` of a `width x height` grid: the
/// mesh of `s` when the input is valid, and `InvalidInput` when it is not.
pub open spec fn build_outcome(s: Set<(int, int)>, width: int, height: int, r: Result<Vec<Rect>, BuildError>) -> bool {
    match r {
        Ok(rs) => {
            &&& valid_input(s, width, height)
            &&& is_mesh(s, width, rs@)
            &&& rects_in_grid(rs@, width, height)
        },
        Err(e) => !valid_input(s, width, height) && e == BuildError::InvalidInput,
    }
}

/// A row outside the grid holds no cell of a set that fits the grid.
proof fn lemma_row_outside(s: Set<(int, int)>, width: int, height: int, y: int)
    requires
        in_grid(s, width, height),
        y < 0 || y >= height,
    ensures
        forall|x: int| !s.contains((x, y)),
{
    assert forall|x: int| !s.contains((x, y)) by {
        if s.contains((x, y)) {
            assert(cell_in_grid(x, y, width, height));
        }
    }
}

/// Builds the collision mesh of the flagged cells of a `width x height` grid.
///
/// Each row is scanned for its maximal runs of flagged cells (its plates),
/// bottom row first. A rectangle is kept open for each plate of the previous
/// row; a plate that comes again in the next row, with the same columns,
/// extends its rectangle by one row, and a rectangle whose plate does not
/// come again is closed and emitted. A last, empty row above the grid
/// closes what is still open. Runs that are separated by an empty row are
/// never merged.
pub fn build(width: i32, height: i32, flagged: &TileSet) -> (r: Result<Vec<Rect>, BuildError>)
    ensures
        build_outcome(flagged@, width as int, height as int, r),
{
    let ghost s = flagged@;
    let ghost w = width as int;
    if width < 0 || height < 0 || !flagged.fits_grid(width, height) {
        return Err(BuildError::InvalidInput);
    }
    let mut prev: Vec<Plate> = Vec::new();
    let mut open: Vec<Rect> = Vec::new();
    let mut rects: Vec<Rect> = Vec::new();
    proof {
        lemma_row_outside(s, w, height as int, -1);
        lemma_empty_row(s, w, -1);
        assert(prev@ == Seq::<Plate>::empty());
        assert forall|yy: int, l: int, r: int| yy < 0 && #[trigger] is_run(s, w, yy, l, r) implies false by {
            assert(s.contains((l, yy)));
            assert(cell_in_grid(l, yy, w, height as int));
        }
    }
    let mut y: i32 = 0;
    while y < height
        invariant
            0 <= y <= height,
            s == flagged@,
            w == width,
            valid_input(s, w, height as int),
            is_row_plates(s, w, y - 1, prev@),
            open_ok(s, w, y as int, prev@, open@),
            closed_ok(s, w, y as int, rects@),
            covered_ok(s, w, y as int, open@, rects@),
        decreases height - y,
    {
        let cur = row_plates(flagged, width, y);
        let next = merge_row(&prev, &open, &cur, y, &mut rects, Ghost(s), Ghost(w));
        prev = cur;
        open = next;
        y += 1;
    }
    let above: Vec<Plate> = Vec::new();
    proof {
        lemma_row_outside(s, w, height as int, height as int);
        lemma_empty_row(s, w, height as int);
        assert(above@ == Seq::<Plate>::empty());
    }
    let rest = merge_row(&prev, &open, &above, height, &mut rects, Ghost(s), Ghost(w));
    proof {
        assert(rest@.len() == 0);
        assert forall|yy: int, l: int, r: int| #[trigger] is_run(s, w, yy, l, r) implies exists|k: int|
            0 <= k < rects@.len() && #[trigger] holds_run(rects@[k], yy, l, r) by {
            assert(s.contains((l, yy)));
            assert(cell_in_grid(l, yy, w, height as int));
        }
        assert forall|k: int| 0 <= k < rects@.len() implies 0 <= #[trigger] rects@[k].left <= rects@[k].right < w
            && 0 <= rects@[k].bottom <= rects@[k].top < height by {
            let q = rects@[k];
            assert(is_stack(s, w, q));
            assert(is_run(s, w, q.bottom as int, q.left as int, q.right as int));
            assert(is_run(s, w, q.top as int, q.left as int, q.right as int));
            assert(s.contains((q.left as int, q.bottom as int)));
            assert(s.contains((q.left as int, q.top as int)));
            assert(cell_in_grid(q.left as int, q.bottom as int, w, height as int));
            assert(cell_in_grid(q.left as int, q.top as int, w, height as int));
        }
    }
    Ok(rects)
}

} // verus!
