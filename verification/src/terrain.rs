//! A height map on a grid, with obstacles.

use crate::distance::Distance;
use crate::heap::VertexId;
use vstd::prelude::*;

verus! {

/// What one cell of the map holds.
#[derive(Clone, Copy, Debug, PartialEq, Eq, Structural)]
pub enum MapSlice {
    Obstacle,
    Visited,
    Height(u32),
}

impl MapSlice {
    /// The height of a cell that can be walked on.
    pub fn get_height(&self) -> (r: Option<u32>)
        ensures
            r == match *self {
                MapSlice::Height(h) => Some(h),
                _ => None::<u32>,
            },
    {
        match self {
            MapSlice::Obstacle => None,
            MapSlice::Visited => None,
            MapSlice::Height(height) => Some(*height),
        }
    }
}

/// A cell position: `x` counts columns from the left, `y` rows from the
/// bottom.
#[derive(Clone, Copy, Debug, PartialEq, Eq, Hash, Structural)]
pub struct Point2d(pub u32, pub u32);

impl Point2d {
    /// The position in column `x` of row `y`.
    pub fn new(x: u32, y: u32) -> (p: Point2d)
        ensures
            p == Point2d(x, y),
    {
        Point2d(x, y)
    }

    /// The column.
    pub fn x(&self) -> (x: u32)
        ensures
            x == self.0,
    {
        self.0
    }

    /// The row.
    pub fn y(&self) -> (y: u32)
        ensures
            y == self.1,
    {
        self.1
    }
}

impl VertexId for Point2d {
    open spec fn key_of(self) -> u64 {
        (self.0 as u64 * 0x1_0000_0000 + self.1 as u64) as u64
    }

    fn key(&self) -> (k: u64) {
        self.0 as u64 * 0x1_0000_0000 + self.1 as u64
    }

    proof fn lemma_key_injective(a: Point2d, b: Point2d) {
    }
}

/// The absolute difference of two heights.
pub open spec fn height_gap(a: u32, b: u32) -> nat {
    if a > b {
        (a - b) as nat
    } else {
        (b - a) as nat
    }
}

/// A rectangular map of cells. The cell `(0, 0)` is the bottom left one.
pub struct TerrainMap {
    graph: Vec<Vec<MapSlice>>,
    width: u32,
    height: u32,
}

impl TerrainMap {
    /// The number of columns.
    pub closed spec fn spec_width(&self) -> nat {
        self.width as nat
    }

    /// The number of rows.
    pub closed spec fn spec_height(&self) -> nat {
        self.height as nat
    }

    /// What the cell in column `x` of row `y` holds.
    pub closed spec fn cell(&self, x: int, y: int) -> MapSlice {
        self.graph@[self.height - 1 - y]@[x]
    }

    /// The rows are stored top row first, all as wide as the map.
    pub closed spec fn wf(&self) -> bool {
        &&& self.width > 1
        &&& self.height > 1
        &&& self.graph@.len() == self.height
        &&& forall|r: int| 0 <= r < self.graph@.len() ==> (#[trigger] self.graph@[r])@.len() == self.width
    }

    /// The position lies on the map.
    pub open spec fn in_bounds(&self, p: Point2d) -> bool {
        p.0 < self.spec_width() && p.1 < self.spec_height()
    }

    /// The position lies on the map and its cell can be walked on.
    pub open spec fn passable(&self, p: Point2d) -> bool {
        self.in_bounds(p) && self.cell(p.0 as int, p.1 as int) is Height
    }

    /// The height of a cell that can be walked on.
    pub open spec fn height_at(&self, p: Point2d) -> u32 {
        self.cell(p.0 as int, p.1 as int)->Height_0
    }

    /// A map never has fewer than two columns or rows.
    pub proof fn lemma_size(&self)
        requires
            self.wf(),
        ensures
            1 < self.spec_width() <= u32::MAX,
            1 < self.spec_height() <= u32::MAX,
    {
    }

    /// Builds a flat map: every cell has height 1.
    pub fn new(width: u32, height: u32) -> (t: TerrainMap)
        requires
            width > 1,
            height > 1,
        ensures
            t.wf(),
            t.spec_width() == width,
            t.spec_height() == height,
            forall|x: int, y: int|
                0 <= x < width && 0 <= y < height ==> #[trigger] t.cell(x, y) == MapSlice::Height(1),
    {
        let mut rows: Vec<Vec<MapSlice>> = Vec::new();
        let mut r: u32 = 0;
        while r < height
            invariant
                r <= height,
                rows@.len() == r,
                forall|i: int| 0 <= i < r ==> (#[trigger] rows@[i])@.len() == width,
                forall|i: int, x: int|
                    0 <= i < r && 0 <= x < width ==> #[trigger] rows@[i]@[x] == MapSlice::Height(1),
            decreases height - r,
        {
            let mut row: Vec<MapSlice> = Vec::new();
            let mut c: u32 = 0;
            while c < width
                invariant
                    c <= width,
                    row@.len() == c,
                    forall|x: int| 0 <= x < c ==> #[trigger] row@[x] == MapSlice::Height(1),
                decreases width - c,
            {
                row.push(MapSlice::Height(1));
                c += 1;
            }
            rows.push(row);
            r += 1;
        }
        TerrainMap { width, height, graph: rows }
    }

    /// The number of columns.
    pub fn width(&self) -> (w: u32)
        ensures
            w == self.spec_width(),
    {
        self.width
    }

    /// The number of rows.
    pub fn height(&self) -> (h: u32)
        ensures
            h == self.spec_height(),
    {
        self.height
    }

    /// What the cell at `(x, y)` holds, if the position lies on the map.
    pub fn get(&self, x: u32, y: u32) -> (r: Option<&MapSlice>)
        requires
            self.wf(),
        ensures
            r == if self.in_bounds(Point2d(x, y)) {
                Some(&self.cell(x as int, y as int))
            } else {
                None
            },
    {
        if y >= self.height || x >= self.width {
            return None;
        }
        let row_idx = self.graph.len() - 1 - y as usize;
        Some(&self.graph[row_idx][x as usize])
    }

    /// The cell at `(x, y)`, to be overwritten, if the position lies on the
    /// map.
    pub fn get_mut(&mut self, x: u32, y: u32) -> (r: Option<&mut MapSlice>)
        requires
            old(self).wf(),
        ensures
            match r {
                Some(slot) => {
                    &&& old(self).in_bounds(Point2d(x, y))
                    &&& *slot == old(self).cell(x as int, y as int)
                    &&& final(self).wf()
                    &&& final(self).spec_width() == old(self).spec_width()
                    &&& final(self).spec_height() == old(self).spec_height()
                    &&& forall|a: int, b: int|
                        0 <= a < old(self).spec_width() && 0 <= b < old(self).spec_height()
                            ==> #[trigger] final(self).cell(a, b) == if a == x && b == y {
                            *final(slot)
                        } else {
                            old(self).cell(a, b)
                        }
                },
                None => !old(self).in_bounds(Point2d(x, y)) && *final(self) == *old(self),
            },
    {
        if y >= self.height || x >= self.width {
            return None;
        }
        let row_idx = self.graph.len() - 1 - y as usize;
        Some(&mut self.graph[row_idx][x as usize])
    }

    /// Overwrites the cell at `(x, y)`.
    fn set_cell(&mut self, x: u32, y: u32, value: MapSlice)
        requires
            old(self).wf(),
            old(self).in_bounds(Point2d(x, y)),
        ensures
            final(self).wf(),
            final(self).spec_width() == old(self).spec_width(),
            final(self).spec_height() == old(self).spec_height(),
            forall|a: int, b: int|
                0 <= a < old(self).spec_width() && 0 <= b < old(self).spec_height()
                    ==> #[trigger] final(self).cell(a, b) == if a == x && b == y {
                    value
                } else {
                    old(self).cell(a, b)
                },
    {
        let row_idx = self.graph.len() - 1 - y as usize;
        self.graph[row_idx][x as usize] = value;
    }

    /// The cost of stepping from `curr` to `neighbor`: one more than the
    /// difference of their heights, where both lie on the map and can be
    /// walked on.
    pub fn distance(&self, curr: &Point2d, neighbor: &Point2d) -> (r: Option<Distance>)
        requires
            self.wf(),
        ensures
            r == if self.passable(*curr) && self.passable(*neighbor) {
                Some(
                    Distance::Dist(
                        height_gap(self.height_at(*curr), self.height_at(*neighbor)) as u32,
                    ).spec_plus(Distance::Dist(1)),
                )
            } else {
                None
            },
    {
        let mut result = None;
        if let Some(MapSlice::Height(curr_height)) = self.get(curr.x(), curr.y()) {
            if let Some(MapSlice::Height(neighbor_height)) = self.get(neighbor.x(), neighbor.y()) {
                if *curr_height > *neighbor_height {
                    result = Some(
                        Distance::Dist(*curr_height - *neighbor_height) + Distance::Dist(1),
                    );
                } else {
                    result = Some(
                        Distance::Dist(*neighbor_height - *curr_height) + Distance::Dist(1),
                    );
                }
            }
        }
        result
    }

    /// The cell beside `p`, `dx` columns and `dy` rows away, if it lies on
    /// the map and can be walked on.
    pub open spec fn beside(&self, p: Point2d, dx: int, dy: int) -> Seq<Point2d> {
        let x = p.0 + dx;
        let y = p.1 + dy;
        if 0 <= x < self.spec_width() && 0 <= y < self.spec_height() && self.cell(x, y) is Height {
            seq![Point2d(x as u32, y as u32)]
        } else {
            Seq::empty()
        }
    }

    /// The cells next to `p` that can be walked on: left, right, below,
    /// above, in this order.
    pub open spec fn spec_neighbors(&self, p: Point2d) -> Seq<Point2d> {
        self.beside(p, -1, 0) + self.beside(p, 1, 0) + self.beside(p, 0, -1) + self.beside(
            p,
            0,
            1,
        )
    }

    /// The cells next to `vert` that lie on the map and can be walked on.
    pub fn neighbors(&self, vert: &Point2d) -> (r: Vec<Point2d>)
        requires
            self.wf(),
        ensures
            r@ == self.spec_neighbors(*vert),
    {
        let mut result: Vec<Point2d> = Vec::new();
        let x = vert.x();
        let y = vert.y();
        if x > 0 {
            if let Some(MapSlice::Height(_)) = self.get(x - 1, y) {
                result.push(Point2d::new(x - 1, y));
            }
        }
        assert(result@ =~= self.beside(*vert, -1, 0));
        if x < self.width - 1 {
            if let Some(MapSlice::Height(_)) = self.get(x + 1, y) {
                result.push(Point2d::new(x + 1, y));
            }
        }
        assert(result@ =~= self.beside(*vert, -1, 0) + self.beside(*vert, 1, 0));
        if y > 0 {
            if let Some(MapSlice::Height(_)) = self.get(x, y - 1) {
                result.push(Point2d::new(x, y - 1));
            }
        }
        assert(result@ =~= self.beside(*vert, -1, 0) + self.beside(*vert, 1, 0) + self.beside(
            *vert,
            0,
            -1,
        ));
        if y < self.height - 1 {
            if let Some(MapSlice::Height(_)) = self.get(x, y + 1) {
                result.push(Point2d::new(x, y + 1));
            }
        }
        assert(result@ =~= self.spec_neighbors(*vert));
        result
    }

    /// The cell at `(x, y)` lies on the straight line between `from` and
    /// `to`, which is parallel to an axis.
    pub open spec fn on_segment(from: Point2d, to: Point2d, x: int, y: int) -> bool {
        ||| (from.0 == to.0 && x == from.0 && ((from.1 <= y <= to.1) || (to.1 <= y <= from.1)))
        ||| (from.1 == to.1 && y == from.1 && ((from.0 <= x <= to.0) || (to.0 <= x <= from.0)))
    }

    /// Turns every cell on the straight line between `from` and `to` into an
    /// obstacle. The line must be parallel to an axis and lie on the map.
    pub fn put_obstacle(&mut self, from: Point2d, to: Point2d)
        requires
            old(self).wf(),
            from.0 == to.0 || from.1 == to.1,
            old(self).in_bounds(from),
            old(self).in_bounds(to),
        ensures
            final(self).wf(),
            final(self).spec_width() == old(self).spec_width(),
            final(self).spec_height() == old(self).spec_height(),
            forall|x: int, y: int|
                0 <= x < old(self).spec_width() && 0 <= y < old(self).spec_height()
                    ==> #[trigger] final(self).cell(x, y) == if Self::on_segment(from, to, x, y) {
                    MapSlice::Obstacle
                } else {
                    old(self).cell(x, y)
                },
    {
        if from.x() == to.x() {
            let fst_y = if from.y() < to.y() {
                from.y()
            } else {
                to.y()
            };
            let lst_y = if from.y() < to.y() {
                to.y()
            } else {
                from.y()
            };
            let mut y = fst_y;
            while y <= lst_y
                invariant
                    self.wf(),
                    self.spec_width() == old(self).spec_width(),
                    self.spec_height() == old(self).spec_height(),
                    from.0 == to.0,
                    from.0 < self.spec_width(),
                    fst_y <= y <= lst_y + 1,
                    lst_y < self.spec_height(),
                    forall|a: int, b: int|
                        0 <= a < old(self).spec_width() && 0 <= b < old(self).spec_height()
                            ==> #[trigger] self.cell(a, b) == if a == from.0 && fst_y <= b < y {
                            MapSlice::Obstacle
                        } else {
                            old(self).cell(a, b)
                        },
                decreases lst_y + 1 - y,
            {
                self.set_cell(from.x(), y, MapSlice::Obstacle);
                y += 1;
            }
        }
        let ghost mid = *self;
        if from.y() == to.y() {
            let fst_x = if from.x() < to.x() {
                from.x()
            } else {
                to.x()
            };
            let lst_x = if from.x() < to.x() {
                to.x()
            } else {
                from.x()
            };
            let mut x = fst_x;
            while x <= lst_x
                invariant
                    self.wf(),
                    self.spec_width() == old(self).spec_width(),
                    self.spec_height() == old(self).spec_height(),
                    from.1 == to.1,
                    from.1 < self.spec_height(),
                    fst_x <= x <= lst_x + 1,
                    lst_x < self.spec_width(),
                    forall|a: int, b: int|
                        0 <= a < old(self).spec_width() && 0 <= b < old(self).spec_height()
                            ==> #[trigger] self.cell(a, b) == if b == from.1 && fst_x <= a < x {
                            MapSlice::Obstacle
                        } else {
                            mid.cell(a, b)
                        },
                decreases lst_x + 1 - x,
            {
                self.set_cell(x, from.y(), MapSlice::Obstacle);
                x += 1;
            }
        }
    }
}

/// Marks every cell of `path` that lies on the map as visited.
pub fn mark_path(graph: &mut TerrainMap, path: &Vec<Point2d>)
    requires
        old(graph).wf(),
    ensures
        final(graph).wf(),
        final(graph).spec_width() == old(graph).spec_width(),
        final(graph).spec_height() == old(graph).spec_height(),
        forall|x: int, y: int|
            0 <= x < old(graph).spec_width() && 0 <= y < old(graph).spec_height()
                ==> #[trigger] final(graph).cell(x, y) == if path@.contains(
                Point2d(x as u32, y as u32),
            ) {
                MapSlice::Visited
            } else {
                old(graph).cell(x, y)
            },
{
    let mut i: usize = 0;
    while i < path.len()
        invariant
            i <= path.len(),
            graph.wf(),
            graph.spec_width() == old(graph).spec_width(),
            graph.spec_height() == old(graph).spec_height(),
            forall|x: int, y: int|
                0 <= x < old(graph).spec_width() && 0 <= y < old(graph).spec_height()
                    ==> #[trigger] graph.cell(x, y) == if path@.subrange(0, i as int).contains(
                    Point2d(x as u32, y as u32),
                ) {
                    MapSlice::Visited
                } else {
                    old(graph).cell(x, y)
                },
        decreases path.len() - i,
    {
        let point = path[i];
        let ghost before = *graph;
        if point.x() < graph.width() && point.y() < graph.height() {
            graph.set_cell(point.x(), point.y(), MapSlice::Visited);
        }
        proof {
            let a = path@.subrange(0, i as int);
            let b = path@.subrange(0, i + 1);
            assert(b[i as int] == point);
            assert forall|p: Point2d| b.contains(p) <==> (a.contains(p) || p == point) by {
                if b.contains(p) {
                    let j = choose|j: int| 0 <= j < b.len() && b[j] == p;
                    if j < i {
                        assert(a[j] == p);
                    }
                }
                if a.contains(p) {
                    let j = choose|j: int| 0 <= j < a.len() && a[j] == p;
                    assert(b[j] == p);
                }
            }
            assert forall|x: int, y: int|
                0 <= x < old(graph).spec_width() && 0 <= y < old(graph).spec_height()
                    implies #[trigger] graph.cell(x, y) == if b.contains(
                Point2d(x as u32, y as u32),
            ) {
                MapSlice::Visited
            } else {
                old(graph).cell(x, y)
            } by {
                assert(before.cell(x, y) == if a.contains(Point2d(x as u32, y as u32)) {
                    MapSlice::Visited
                } else {
                    old(graph).cell(x, y)
                });
            }
        }
        i += 1;
    }
    proof {
        assert(path@.subrange(0, path.len() as int) =~= path@);
    }
}

} // verus!
