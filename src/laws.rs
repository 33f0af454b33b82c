use vstd::prelude::*;
use crate::tiles::cell_in_grid;
use crate::plates::{is_run, lemma_runs_meet, lemma_run_around};
use crate::rects::{Rect, rect_has, holds_run, is_stack, lemma_stacks_agree};
use crate::mesh::{BuildError, build_outcome, valid_input, is_mesh};

verus! {

/// The cells that some rectangle of `rs` covers.
pub open spec fn covered_cells(rs: Seq<Rect>) -> Set<(int, int)> {
    Set::new(|c: (int, int)| exists|k: int| 0 <= k < rs.len() && #[trigger] rect_has(rs[k], c.0, c.1))
}

/// No cell is covered by two rectangles of `rs`.
pub open spec fn pairwise_disjoint(rs: Seq<Rect>) -> bool {
    forall|k1: int, k2: int, x: int, y: int|
        0 <= k1 < rs.len() && 0 <= k2 < rs.len() && k1 != k2 && #[trigger] rect_has(rs[k1], x, y) ==> !#[trigger] rect_has(rs[k2], x, y)
}

/// Every cell of the grid `[0, width) x [0, height)`.
pub open spec fn full_grid(width: int, height: int) -> Set<(int, int)> {
    Set::new(|c: (int, int)| cell_in_grid(c.0, c.1, width, height))
}

/// The rectangles of a mesh cover exactly the flagged cells: none is
/// missing, and no other cell is covered.
pub proof fn lemma_mesh_covers(s: Set<(int, int)>, width: int, height: int, rs: Seq<Rect>)
    requires
        valid_input(s, width, height),
        is_mesh(s, width, rs),
    ensures
        covered_cells(rs) == s,
{
    assert forall|c: (int, int)| covered_cells(rs).contains(c) implies s.contains(c) by {
        let k = choose|k: int| 0 <= k < rs.len() && #[trigger] rect_has(rs[k], c.0, c.1);
        assert(is_stack(s, width, rs[k]));
        assert(is_run(s, width, c.1, rs[k].left as int, rs[k].right as int));
        assert(s.contains((c.0, c.1)));
    }
    assert forall|c: (int, int)| s.contains(c) implies covered_cells(rs).contains(c) by {
        assert(cell_in_grid(c.0, c.1, width, height));
        lemma_run_around(s, width, c.1, c.0);
        let (l, r) = choose|l: int, r: int| #[trigger] is_run(s, width, c.1, l, r) && l <= c.0 <= r;
        let k = choose|k: int| 0 <= k < rs.len() && #[trigger] holds_run(rs[k], c.1, l, r);
        assert(rect_has(rs[k], c.0, c.1));
    }
    assert(covered_cells(rs) =~= s);
}

/// No two rectangles of a mesh share a cell.
pub proof fn lemma_mesh_disjoint(s: Set<(int, int)>, width: int, height: int, rs: Seq<Rect>)
    requires
        valid_input(s, width, height),
        is_mesh(s, width, rs),
    ensures
        pairwise_disjoint(rs),
{
    assert forall|k1: int, k2: int, x: int, y: int|
        0 <= k1 < rs.len() && 0 <= k2 < rs.len() && k1 != k2 && #[trigger] rect_has(rs[k1], x, y) implies !#[trigger] rect_has(rs[k2], x, y) by {
        if rect_has(rs[k2], x, y) {
            let a = rs[k1];
            let b = rs[k2];
            assert(is_stack(s, width, a));
            assert(is_stack(s, width, b));
            assert(is_run(s, width, y, a.left as int, a.right as int));
            assert(is_run(s, width, y, b.left as int, b.right as int));
            lemma_runs_meet(s, width, y, a.left as int, a.right as int, b.left as int, b.right as int, x);
            lemma_stacks_agree(s, width, a, b, y);
        }
    }
}

/// A mesh is fixed by the flagged cells and the grid: two meshes of the
/// same input hold the same rectangles, in whatever order.
pub proof fn lemma_mesh_unique(s: Set<(int, int)>, width: int, height: int, rs1: Seq<Rect>, rs2: Seq<Rect>)
    requires
        valid_input(s, width, height),
        is_mesh(s, width, rs1),
        is_mesh(s, width, rs2),
    ensures
        rs1.to_set() == rs2.to_set(),
        rs1.len() == rs2.len(),
{
    lemma_mesh_within(s, width, rs1, rs2);
    lemma_mesh_within(s, width, rs2, rs1);
    assert(rs1.to_set() =~= rs2.to_set());
    rs1.unique_seq_to_set();
    rs2.unique_seq_to_set();
}

/// Two builds of the same cells on the same grid agree: both fail, or both
/// succeed with the same rectangles, in whatever order.
pub proof fn lemma_build_deterministic(
    s: Set<(int, int)>,
    width: int,
    height: int,
    r1: Result<Vec<Rect>, BuildError>,
    r2: Result<Vec<Rect>, BuildError>,
)
    requires
        build_outcome(s, width, height, r1),
        build_outcome(s, width, height, r2),
    ensures
        r1 is Ok <==> r2 is Ok,
        r1 is Err ==> r1 == r2,
        r1 is Ok ==> r1->Ok_0@.to_set() == r2->Ok_0@.to_set() && r1->Ok_0@.len() == r2->Ok_0@.len(),
{
    if r1 is Ok && r2 is Ok {
        lemma_mesh_unique(s, width, height, r1->Ok_0@, r2->Ok_0@);
    }
}

/// Every rectangle of one mesh stands in any other mesh of the same cells.
proof fn lemma_mesh_within(s: Set<(int, int)>, width: int, rs1: Seq<Rect>, rs2: Seq<Rect>)
    requires
        is_mesh(s, width, rs1),
        is_mesh(s, width, rs2),
    ensures
        forall|a: Rect| rs1.contains(a) ==> rs2.contains(a),
{
    assert forall|a: Rect| rs1.contains(a) implies rs2.contains(a) by {
        let k1 = choose|k1: int| 0 <= k1 < rs1.len() && rs1[k1] == a;
        assert(is_stack(s, width, rs1[k1]));
        assert(is_run(s, width, a.bottom as int, a.left as int, a.right as int));
        let k2 = choose|k2: int| 0 <= k2 < rs2.len() && #[trigger] holds_run(rs2[k2], a.bottom as int, a.left as int, a.right as int);
        assert(is_stack(s, width, rs2[k2]));
        lemma_stacks_agree(s, width, a, rs2[k2], a.bottom as int);
    }
}

/// A grid whose cells are all flagged collapses to one rectangle that spans
/// it from `(0, 0)` to `(width - 1, height - 1)`.
pub proof fn lemma_full_grid_one_rect(width: int, height: int, rs: Seq<Rect>)
    requires
        width >= 1,
        height >= 1,
        is_mesh(full_grid(width, height), width, rs),
    ensures
        rs.len() == 1,
        rs[0].left == 0,
        rs[0].right == width - 1,
        rs[0].bottom == 0,
        rs[0].top == height - 1,
{
    let s = full_grid(width, height);
    assert forall|y: int| 0 <= y < height implies #[trigger] is_run(s, width, y, 0, width - 1) by {
        assert forall|x: int| 0 <= x <= width - 1 implies #[trigger] s.contains((x, y)) by {
            assert(cell_in_grid(x, y, width, height));
        }
    }
    assert forall|k: int| 0 <= k < rs.len() implies #[trigger] rs[k].left == 0 && rs[k].right == width - 1
        && rs[k].bottom == 0 && rs[k].top == height - 1 by {
        let q = rs[k];
        assert(is_stack(s, width, q));
        assert(is_run(s, width, q.bottom as int, q.left as int, q.right as int));
        assert(is_run(s, width, q.top as int, q.left as int, q.right as int));
        assert(s.contains((q.left as int, q.bottom as int)));
        assert(s.contains((q.left as int, q.top as int)));
        if q.left > 0 {
            assert(s.contains((q.left - 1, q.bottom as int)));
        }
        if q.right < width - 1 {
            assert(s.contains((q.right + 1, q.bottom as int)));
        }
        if q.bottom > 0 {
            assert(is_run(s, width, q.bottom - 1, 0, width - 1));
        }
        if q.top < height - 1 {
            assert(is_run(s, width, q.top + 1, 0, width - 1));
        }
    }
    assert(is_run(s, width, 0, 0, width - 1));
    let k = choose|k: int| 0 <= k < rs.len() && #[trigger] holds_run(rs[k], 0, 0, width - 1);
    if rs.len() > 1 {
        assert(rs[0] == rs[1]);
    }
}

/// Two classifications with disjoint cells on one grid are built apart:
/// each mesh covers exactly its own cells without overlap, and no cell is
/// covered by both meshes.
pub proof fn lemma_classes_apart(
    width: int,
    height: int,
    s1: Set<(int, int)>,
    s2: Set<(int, int)>,
    rs1: Seq<Rect>,
    rs2: Seq<Rect>,
)
    requires
        s1.disjoint(s2),
        valid_input(s1, width, height),
        valid_input(s2, width, height),
        is_mesh(s1, width, rs1),
        is_mesh(s2, width, rs2),
    ensures
        covered_cells(rs1) == s1,
        covered_cells(rs2) == s2,
        pairwise_disjoint(rs1),
        pairwise_disjoint(rs2),
        covered_cells(rs1).disjoint(covered_cells(rs2)),
{
    lemma_mesh_covers(s1, width, height, rs1);
    lemma_mesh_covers(s2, width, height, rs2);
    lemma_mesh_disjoint(s1, width, height, rs1);
    lemma_mesh_disjoint(s2, width, height, rs2);
}

} // verus!
