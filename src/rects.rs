use vstd::prelude::*;
use crate::plates::{Plate, is_run, is_row_plates, lemma_run_listed};

verus! {

/// An axis-aligned block of cells: columns `left..=right`, rows
/// `bottom..=top`, all bounds inclusive.
#[derive(Clone, Copy, Debug, PartialEq, Eq, Hash)]
pub struct Rect {
    pub left: i32,
    pub right: i32,
    pub bottom: i32,
    pub top: i32,
}

/// The rectangle covers cell `(x, y)`.
pub open spec fn rect_has(r: Rect, x: int, y: int) -> bool {
    r.left <= x <= r.right && r.bottom <= y <= r.top
}

/// The rectangle has the columns `left..=right` and spans row `y`.
pub open spec fn holds_run(r: Rect, y: int, left: int, right: int) -> bool {
    r.left as int == left && r.right as int == right && r.bottom <= y <= r.top
}

/// Each row `bottom..=top` of `r` has the maximal run `left..=right`, and
/// the row below does not: `r` cannot grow downward.
pub open spec fn grows_from(s: Set<(int, int)>, width: int, r: Rect) -> bool {
    &&& r.bottom <= r.top
    &&& forall|y: int| r.bottom <= y <= r.top ==> #[trigger] is_run(s, width, y, r.left as int, r.right as int)
    &&& !is_run(s, width, r.bottom - 1, r.left as int, r.right as int)
}

/// `r` is a maximal vertical stack of one run: it can grow neither downward
/// nor upward.
pub open spec fn is_stack(s: Set<(int, int)>, width: int, r: Rect) -> bool {
    &&& grows_from(s, width, r)
    &&& !is_run(s, width, r.top + 1, r.left as int, r.right as int)
}

/// The rectangle still open for plate `p` after row `y - 1`.
pub open spec fn open_entry(s: Set<(int, int)>, width: int, y: int, p: Plate, r: Rect) -> bool {
    &&& r.left == p.left
    &&& r.right == p.right
    &&& r.top == y - 1
    &&& grows_from(s, width, r)
}

/// Before row `y`, `open` holds one open rectangle per plate of `prev`, in
/// the same order.
pub open spec fn open_ok(s: Set<(int, int)>, width: int, y: int, prev: Seq<Plate>, open: Seq<Rect>) -> bool {
    &&& open.len() == prev.len()
    &&& forall|i: int| 0 <= i < open.len() ==> #[trigger] open_entry(s, width, y, prev[i], open[i])
}

/// Before row `y`, every emitted rectangle is a maximal stack that ended
/// below row `y - 1`, and none is emitted twice.
pub open spec fn closed_ok(s: Set<(int, int)>, width: int, y: int, out: Seq<Rect>) -> bool {
    &&& forall|k: int| 0 <= k < out.len() ==> is_stack(s, width, #[trigger] out[k])
    &&& forall|k: int| 0 <= k < out.len() ==> #[trigger] out[k].top <= y - 2
    &&& out.no_duplicates()
}

/// Before row `y`, each run of a lower row is held by an emitted or an open
/// rectangle.
pub open spec fn covered_ok(s: Set<(int, int)>, width: int, y: int, open: Seq<Rect>, out: Seq<Rect>) -> bool {
    forall|yy: int, l: int, r: int|
        yy < y && #[trigger] is_run(s, width, yy, l, r) ==> (exists|k: int|
            0 <= k < out.len() && #[trigger] holds_run(out[k], yy, l, r)) || (exists|i: int|
            0 <= i < open.len() && #[trigger] holds_run(open[i], yy, l, r))
}

/// Two downward-maximal stacks of the same run that touch end at the same
/// bottom row.
pub proof fn lemma_bottoms_agree(s: Set<(int, int)>, width: int, a: Rect, b: Rect)
    requires
        grows_from(s, width, a),
        grows_from(s, width, b),
        a.left == b.left,
        a.right == b.right,
        a.top <= b.top,
        b.bottom <= a.top + 1,
    ensures
        a.bottom == b.bottom,
{
    if b.bottom < a.bottom {
        assert(is_run(s, width, a.bottom - 1, b.left as int, b.right as int));
    }
    if a.bottom < b.bottom {
        assert(is_run(s, width, b.bottom - 1, a.left as int, a.right as int));
    }
}

/// Two maximal stacks of the same run that share a row are the same
/// rectangle.
pub proof fn lemma_stacks_agree(s: Set<(int, int)>, width: int, a: Rect, b: Rect, y: int)
    requires
        is_stack(s, width, a),
        is_stack(s, width, b),
        a.left == b.left,
        a.right == b.right,
        a.bottom <= y <= a.top,
        b.bottom <= y <= b.top,
    ensures
        a == b,
{
    if a.top < b.top {
        assert(is_run(s, width, a.top + 1, b.left as int, b.right as int));
    }
    if b.top < a.top {
        assert(is_run(s, width, b.top + 1, a.left as int, a.right as int));
    }
    lemma_bottoms_agree(s, width, a, b);
}

/// The index of `p` in `row`, if it is there.
pub fn find_plate(row: &Vec<Plate>, p: Plate) -> (r: Option<usize>)
    ensures
        match r {
            Some(i) => i < row@.len() && row@[i as int] == p,
            None => !row@.contains(p),
        },
{
    let mut i: usize = 0;
    while i < row.len()
        invariant
            i <= row@.len(),
            forall|k: int| 0 <= k < i ==> row@[k] != p,
        decreases row@.len() - i,
    {
        if row[i].left == p.left && row[i].right == p.right {
            return Some(i);
        }
        i += 1;
    }
    None
}

/// Takes the vertical merge one row further. `prev` holds the plates of row
/// `y - 1` and `open` the rectangle open for each of them; `cur` holds the
/// plates of row `y`. A rectangle whose plate is not in `cur` is closed and
/// pushed to `out`; each plate of `cur` then extends the rectangle open for
/// it, or opens a new one at row `y`. Returns the rectangles open for `cur`.
pub(crate) fn merge_row(
    prev: &Vec<Plate>,
    open: &Vec<Rect>,
    cur: &Vec<Plate>,
    y: i32,
    out: &mut Vec<Rect>,
    Ghost(s): Ghost<Set<(int, int)>>,
    Ghost(width): Ghost<int>,
) -> (next: Vec<Rect>)
    requires
        0 <= y,
        is_row_plates(s, width, y - 1, prev@),
        is_row_plates(s, width, y as int, cur@),
        open_ok(s, width, y as int, prev@, open@),
        closed_ok(s, width, y as int, old(out)@),
        covered_ok(s, width, y as int, open@, old(out)@),
    ensures
        open_ok(s, width, y + 1, cur@, next@),
        closed_ok(s, width, y + 1, final(out)@),
        covered_ok(s, width, y + 1, next@, final(out)@),
{
    let ghost out0 = out@;
    let mut i: usize = 0;
    while i < prev.len()
        invariant
            0 <= y,
            i <= prev@.len(),
            is_row_plates(s, width, y - 1, prev@),
            is_row_plates(s, width, y as int, cur@),
            open_ok(s, width, y as int, prev@, open@),
            closed_ok(s, width, y as int, out0),
            out@.len() >= out0.len(),
            forall|k: int| 0 <= k < out0.len() ==> #[trigger] out@[k] == out0[k],
            forall|k: int| out0.len() <= k < out@.len() ==> is_stack(s, width, #[trigger] out@[k]),
            forall|k: int| out0.len() <= k < out@.len() ==> #[trigger] out@[k].top == y - 1,
            forall|k1: int, k2: int|
                out0.len() <= k1 < k2 < out@.len() ==> #[trigger] out@[k1].left < #[trigger] out@[k2].left,
            forall|k: int|
                out0.len() <= k < out@.len() && i < prev@.len() ==> #[trigger] out@[k].left < prev@[i as int].left,
            forall|j: int|
                0 <= j < i && !cur@.contains(#[trigger] prev@[j]) ==> exists|k: int|
                    out0.len() <= k < out@.len() && out@[k] == open@[j],
        decreases prev@.len() - i,
    {
        if find_plate(cur, prev[i]).is_none() {
            let ghost before = out@;
            proof {
                let p = prev@[i as int];
                assert(open_entry(s, width, y as int, p, open@[i as int]));
                if is_run(s, width, y as int, p.left as int, p.right as int) {
                    lemma_run_listed(s, width, y as int, cur@, p.left as int, p.right as int);
                    let j = choose|j: int| 0 <= j < cur@.len() && cur@[j].left == p.left && cur@[j].right == p.right;
                    assert(cur@[j] == p);
                }
            }
            out.push(open[i]);
            proof {
                assert forall|j: int|
                    0 <= j < i + 1 && !cur@.contains(#[trigger] prev@[j]) implies exists|k: int|
                    out0.len() <= k < out@.len() && out@[k] == open@[j] by {
                    if j == i {
                        assert(out@[out@.len() - 1] == open@[j]);
                    } else {
                        let k = choose|k: int| out0.len() <= k < before.len() && before[k] == open@[j];
                        assert(out@[k] == open@[j]);
                    }
                }
            }
        }
        proof {
            if i + 1 < prev@.len() {
                assert(is_run(s, width, y - 1, prev@[i as int].left as int, prev@[i as int].right as int));
                assert(prev@[i as int].right < prev@[i + 1].left);
            }
        }
        i += 1;
    }
    proof {
        assert forall|k1: int, k2: int| 0 <= k1 < out@.len() && 0 <= k2 < out@.len() && k1 != k2 implies out@[k1] != out@[k2] by {
            if k1 < out0.len() && k2 < out0.len() {
                assert(out0[k1] != out0[k2]);
            } else if k1 < out0.len() {
                assert(out0[k1].top <= y - 2);
            } else if k2 < out0.len() {
                assert(out0[k2].top <= y - 2);
            } else if k1 < k2 {
                assert(out@[k1].left < out@[k2].left);
            } else {
                assert(out@[k2].left < out@[k1].left);
            }
        }
    }
    let mut next: Vec<Rect> = Vec::new();
    let mut j: usize = 0;
    while j < cur.len()
        invariant
            0 <= y,
            j <= cur@.len(),
            next@.len() == j,
            is_row_plates(s, width, y - 1, prev@),
            is_row_plates(s, width, y as int, cur@),
            open_ok(s, width, y as int, prev@, open@),
            forall|k: int| 0 <= k < j ==> #[trigger] open_entry(s, width, y + 1, cur@[k], next@[k]),
        decreases cur@.len() - j,
    {
        let p = cur[j];
        assert(is_run(s, width, y as int, p.left as int, p.right as int));
        let r = match find_plate(prev, p) {
            Some(i) => {
                let o = open[i];
                proof {
                    assert(open_entry(s, width, y as int, prev@[i as int], open@[i as int]));
                    assert forall|yy: int| o.bottom <= yy <= y implies #[trigger] is_run(s, width, yy, o.left as int, o.right as int) by {
                        if yy < y {
                            assert(is_run(s, width, yy, o.left as int, o.right as int));
                        }
                    }
                }
                Rect { left: o.left, right: o.right, bottom: o.bottom, top: y }
            },
            None => {
                proof {
                    if is_run(s, width, y - 1, p.left as int, p.right as int) {
                        lemma_run_listed(s, width, y - 1, prev@, p.left as int, p.right as int);
                        let i = choose|i: int| 0 <= i < prev@.len() && prev@[i].left == p.left && prev@[i].right == p.right;
                        assert(prev@[i] == p);
                    }
                }
                Rect { left: p.left, right: p.right, bottom: y, top: y }
            },
        };
        next.push(r);
        j += 1;
    }
    proof {
        assert forall|yy: int, l: int, r: int|
            yy < y + 1 && #[trigger] is_run(s, width, yy, l, r) implies (exists|k: int|
            0 <= k < out@.len() && #[trigger] holds_run(out@[k], yy, l, r)) || (exists|i: int|
            0 <= i < next@.len() && #[trigger] holds_run(next@[i], yy, l, r)) by {
            if yy == y {
                lemma_run_listed(s, width, y as int, cur@, l, r);
                let jj = choose|jj: int| 0 <= jj < cur@.len() && cur@[jj].left == l && cur@[jj].right == r;
                assert(open_entry(s, width, y + 1, cur@[jj], next@[jj]));
                assert(holds_run(next@[jj], yy, l, r));
            } else {
                if exists|k: int| 0 <= k < out0.len() && #[trigger] holds_run(out0[k], yy, l, r) {
                    let k = choose|k: int| 0 <= k < out0.len() && #[trigger] holds_run(out0[k], yy, l, r);
                    assert(holds_run(out@[k], yy, l, r));
                } else {
                    let i = choose|i: int| 0 <= i < open@.len() && #[trigger] holds_run(open@[i], yy, l, r);
                    let p = prev@[i];
                    assert(open_entry(s, width, y as int, p, open@[i]));
                    if cur@.contains(p) {
                        let jj = choose|jj: int| 0 <= jj < cur@.len() && cur@[jj] == p;
                        assert(open_entry(s, width, y + 1, cur@[jj], next@[jj]));
                        lemma_bottoms_agree(s, width, open@[i], next@[jj]);
                        assert(holds_run(next@[jj], yy, l, r));
                    } else {
                        let k = choose|k: int| out0.len() <= k < out@.len() && out@[k] == open@[i];
                        assert(holds_run(out@[k], yy, l, r));
                    }
                }
            }
        }
    }
    next
}

} // verus!
