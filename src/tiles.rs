use vstd::prelude::*;

verus! {

/// One cell of a level's tile grid: `x` grows rightward, `y` upward.
#[derive(Clone, Copy, Debug, PartialEq, Eq, Hash)]
pub struct GridCoord {
    pub x: i32,
    pub y: i32,
}

/// The cells of one level that carry one tile classification.
///
/// The cells are held in bevy's `HashSet` (hashbrown), which verification
/// does not look into; `tile_cells` names what it holds, and the methods
/// below that call into it state their effect on that set.
#[verifier::external_body]
pub struct TileSet {
    cells: bevy::utils::HashSet<(i32, i32)>,
}

/// The cells that a `TileSet` holds, each as an `(x, y)` pair.
pub uninterp spec fn tile_cells(s: TileSet) -> Set<(int, int)>;

/// The cells listed in `s`, each as an `(x, y)` pair.
pub open spec fn listed_cells(s: Seq<(i32, i32)>) -> Set<(int, int)> {
    Set::new(|c: (int, int)| exists|i: int| 0 <= i < s.len() && s[i].0 == c.0 && s[i].1 == c.1)
}

impl View for TileSet {
    type V = Set<(int, int)>;

    open spec fn view(&self) -> Set<(int, int)> {
        tile_cells(*self)
    }
}

impl TileSet {
    /// Relies on `Default` for bevy's `HashSet` (hashbrown): a new set is empty.
    #[verifier::external_body]
    fn empty() -> (r: TileSet)
        ensures
            tile_cells(r) == Set::<(int, int)>::empty(),
    {
        TileSet { cells: bevy::utils::HashSet::default() }
    }

    /// Relies on hashbrown's `HashSet::insert`: the value is added, the others
    /// stay, and the result tells whether it was absent before.
    #[verifier::external_body]
    fn insert_cell(&mut self, x: i32, y: i32) -> (r: bool)
        ensures
            tile_cells(*final(self)) == tile_cells(*old(self)).insert((x as int, y as int)),
            r == !tile_cells(*old(self)).contains((x as int, y as int)),
    {
        self.cells.insert((x, y))
    }

    /// Relies on hashbrown's `HashSet::contains`: whether the value is held.
    #[verifier::external_body]
    fn contains_cell(&self, x: i32, y: i32) -> (r: bool)
        ensures
            r == tile_cells(*self).contains((x as int, y as int)),
    {
        self.cells.contains(&(x, y))
    }

    /// Relies on hashbrown's `HashSet::iter`: it visits each held value,
    /// in an order that depends on the hashes.
    #[verifier::external_body]
    fn cell_list(&self) -> (r: Vec<(i32, i32)>)
        ensures
            listed_cells(r@) == tile_cells(*self),
    {
        self.cells.iter().copied().collect()
    }

    /// An empty tile set.
    pub fn new() -> (r: TileSet)
        ensures
            r@ == Set::<(int, int)>::empty(),
    {
        TileSet::empty()
    }

    /// Adds a cell; returns whether it was not there before.
    pub fn insert(&mut self, c: GridCoord) -> (r: bool)
        ensures
            final(self)@ == old(self)@.insert((c.x as int, c.y as int)),
            r == !old(self)@.contains((c.x as int, c.y as int)),
    {
        self.insert_cell(c.x, c.y)
    }

    /// Whether the cell is in the set.
    pub fn contains(&self, c: GridCoord) -> (r: bool)
        ensures
            r == self@.contains((c.x as int, c.y as int)),
    {
        self.contains_cell(c.x, c.y)
    }

    /// Whether every cell lies in the grid `[0, width) x [0, height)`.
    pub fn fits_grid(&self, width: i32, height: i32) -> (r: bool)
        ensures
            r == in_grid(self@, width as int, height as int),
    {
        let list = self.cell_list();
        let mut i: usize = 0;
        while i < list.len()
            invariant
                i <= list@.len(),
                listed_cells(list@) == self@,
                forall|k: int| 0 <= k < i ==> cell_in_grid(list@[k].0 as int, list@[k].1 as int, width as int, height as int),
            decreases list@.len() - i,
        {
            let (x, y) = list[i];
            if x < 0 || x >= width || y < 0 || y >= height {
                proof {
                    assert(self@.contains((x as int, y as int)));
                }
                return false;
            }
            i += 1;
        }
        proof {
            assert forall|c: (int, int)| self@.contains(c) implies cell_in_grid(c.0, c.1, width as int, height as int) by {
                assert(listed_cells(list@).contains(c));
            }
        }
        true
    }
}

/// The cell `(x, y)` lies in the grid `[0, width) x [0, height)`.
pub open spec fn cell_in_grid(x: int, y: int, width: int, height: int) -> bool {
    0 <= x < width && 0 <= y < height
}

/// Every cell of `s` lies in the grid `[0, width) x [0, height)`.
pub open spec fn in_grid(s: Set<(int, int)>, width: int, height: int) -> bool {
    forall|c: (int, int)| #[trigger] s.contains(c) ==> cell_in_grid(c.0, c.1, width, height)
}

} // verus!
