use vstd::prelude::*;
use crate::rects::Rect;

verus! {

/// Where a rectangle of cells stands in world units, for a grid whose cells
/// are `grid_size` units wide. Each value is twice the world value, so that
/// a centre that falls on half a cell stays an exact integer.
#[derive(Clone, Copy, Debug, PartialEq, Eq, Hash)]
pub struct ColliderBox {
    pub twice_center_x: i64,
    pub twice_center_y: i64,
    pub twice_half_width: i64,
    pub twice_half_height: i64,
}

impl Rect {
    /// The rectangle's centre and half-extents in world units, each doubled:
    /// the centre is `((left + right + 1) * grid_size / 2,
    /// (bottom + top + 1) * grid_size / 2)` and the half-extents are
    /// `((right - left + 1) * grid_size / 2, (top - bottom + 1) * grid_size / 2)`.
    pub fn collider_box(&self, grid_size: i32) -> (b: ColliderBox)
        ensures
            b.twice_center_x == (self.left + self.right + 1) * grid_size,
            b.twice_center_y == (self.bottom + self.top + 1) * grid_size,
            b.twice_half_width == (self.right - self.left + 1) * grid_size,
            b.twice_half_height == (self.top - self.bottom + 1) * grid_size,
    {
        let g = grid_size as i64;
        let cx = self.left as i64 + self.right as i64 + 1;
        let cy = self.bottom as i64 + self.top as i64 + 1;
        let w = self.right as i64 - self.left as i64 + 1;
        let h = self.top as i64 - self.bottom as i64 + 1;
        proof {
            lemma_product_fits(cx as int, g as int);
            lemma_product_fits(cy as int, g as int);
            lemma_product_fits(w as int, g as int);
            lemma_product_fits(h as int, g as int);
        }
        ColliderBox {
            twice_center_x: cx * g,
            twice_center_y: cy * g,
            twice_half_width: w * g,
            twice_half_height: h * g,
        }
    }
}

/// A factor in `[1 - 2^32, 2^32]` times an `i32` fits in an `i64`.
proof fn lemma_product_fits(a: int, g: int)
    requires
        -0xffff_ffff <= a <= 0x1_0000_0000,
        i32::MIN <= g <= i32::MAX,
    ensures
        i64::MIN <= a * g <= i64::MAX,
{
    assert(i64::MIN <= a * g <= i64::MAX) by (nonlinear_arith)
        requires
            -0xffff_ffff <= a <= 0x1_0000_0000,
            -0x8000_0000 <= g <= 0x7fff_ffff,
    ;
}

} // verus!
