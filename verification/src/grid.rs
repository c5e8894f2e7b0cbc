use vstd::prelude::*;
use crate::graph::Graph;

verus! {

/// A rectangular maze as the image application reads it from a raster
/// picture: each cell is open or a wall (a pixel is a wall exactly when it
/// equals the fixed wall colour).  Cell `(x, y)` is stored at `y * width + x`.
pub struct GridMaze {
    pub width: usize,
    pub height: usize,
    pub open: Vec<bool>,
}

impl GridMaze {
    pub open spec fn wf(self) -> bool {
        &&& self.open@.len() == self.width * self.height
        &&& self.width * self.height <= usize::MAX
    }

    /// The vertex number standing for cell `(x, y)`.
    pub open spec fn cell(self, x: int, y: int) -> int {
        y * self.width + x
    }

    /// Cell `(x, y)` exists and is open.
    pub open spec fn is_open(self, x: int, y: int) -> bool {
        0 <= x < self.width && 0 <= y < self.height && self.open@[self.cell(x, y)]
    }

    /// `(x2, y2)` is one orthogonal step away from `(x, y)`.
    pub open spec fn adjacent(x: int, y: int, x2: int, y2: int) -> bool {
        ||| (x2 == x + 1 && y2 == y)
        ||| (x2 + 1 == x && y2 == y)
        ||| (x2 == x && y2 == y + 1)
        ||| (x2 == x && y2 + 1 == y)
    }

    /// A plausible adjacency row for cell `(x, y)`: unit weights, every
    /// entry an open orthogonal neighbor, every open orthogonal neighbor
    /// present.
    pub open spec fn row_ok(self, x: int, y: int, row: Seq<(usize, u64)>) -> bool {
        &&& forall|k: int| 0 <= k < row.len() ==> (#[trigger] row[k]).1 == 1u64
        &&& forall|k: int|
            0 <= k < row.len() ==> exists|x2: int, y2: int|
                GridMaze::adjacent(x, y, x2, y2) && self.is_open(x2, y2) && (#[trigger] row[k]).0
                    == self.cell(x2, y2)
        &&& forall|x2: int, y2: int|
            GridMaze::adjacent(x, y, x2, y2) && #[trigger] self.is_open(x2, y2) ==> exists|k: int|
                0 <= k < row.len() && (#[trigger] row[k]).0 == self.cell(x2, y2)
    }

    proof fn lemma_cell_bound(self, x: int, y: int)
        requires
            self.wf(),
            0 <= x < self.width,
            0 <= y < self.height,
        ensures
            0 <= self.cell(x, y) < self.open@.len(),
    {
        assert(y * self.width + x < self.width * self.height) by (nonlinear_arith)
            requires
                0 <= x < self.width,
                0 <= y < self.height,
        ;
    }

    proof fn lemma_cell_unique(self, x: int, y: int, x2: int, y2: int)
        requires
            0 <= x < self.width,
            0 <= y < self.height,
            0 <= x2 < self.width,
            0 <= y2 < self.height,
            self.cell(x, y) == self.cell(x2, y2),
        ensures
            x == x2,
            y == y2,
    {
        assert(x == x2 && y == y2) by (nonlinear_arith)
            requires
                0 <= x < self.width,
                0 <= y < self.height,
                0 <= x2 < self.width,
                0 <= y2 < self.height,
                y * self.width + x == y2 * self.width + x2,
        ;
    }

    proof fn lemma_cell_prefix(self, cx: int, cy: int, y: int, x: int)
        requires
            0 <= cx < self.width,
            0 <= cy,
            0 <= x,
            cy < y || (cy == y && cx < x),
        ensures
            0 <= self.cell(cx, cy) < y * self.width + x,
    {
        if cy < y {
            assert(0 <= cy * self.width + cx && cy * self.width + cx < y * self.width)
                by (nonlinear_arith)
                requires
                    0 <= cx < self.width,
                    0 <= cy,
                    cy < y,
            ;
        } else {
            assert(0 <= cy * self.width) by (nonlinear_arith)
                requires
                    0 <= cy,
                    0 <= self.width,
            ;
        }
    }

    /// Cell `(x, y)` as a graph vertex.
    pub fn vertex(&self, x: usize, y: usize) -> (r: usize)
        requires
            self.wf(),
            x < self.width,
            y < self.height,
        ensures
            r == self.cell(x as int, y as int),
    {
        proof {
            self.lemma_cell_bound(x as int, y as int);
        }
        y * self.width + x
    }

    /// Whether cell `(x, y)` is open; cells outside the grid are not.
    pub fn open_at(&self, x: usize, y: usize) -> (r: bool)
        requires
            self.wf(),
        ensures
            r == self.is_open(x as int, y as int),
    {
        if x < self.width && y < self.height {
            proof {
                self.lemma_cell_bound(x as int, y as int);
            }
            self.open[y * self.width + x]
        } else {
            false
        }
    }

    /// The open orthogonal neighbors of cell `(x, y)` as `(vertex, 1)`
    /// weighted edges, generated right, left, down, up, as the image
    /// application enumerates pixels.
    pub fn neighbor_edges(&self, x: usize, y: usize) -> (r: Vec<(usize, u64)>)
        requires
            self.wf(),
            x < self.width,
            y < self.height,
        ensures
            self.row_ok(x as int, y as int, r@),
            forall|k: int| 0 <= k < r@.len() ==> 0 <= (#[trigger] r@[k]).0 < self.open@.len(),
    {
        let mut r: Vec<(usize, u64)> = Vec::new();
        if self.open_at(x + 1, y) {
            let v = self.vertex(x + 1, y);
            r.push((v, 1));
        }
        if x > 0 && self.open_at(x - 1, y) {
            let v = self.vertex(x - 1, y);
            r.push((v, 1));
        }
        if self.open_at(x, y + 1) {
            let v = self.vertex(x, y + 1);
            r.push((v, 1));
        }
        if y > 0 && self.open_at(x, y - 1) {
            let v = self.vertex(x, y - 1);
            r.push((v, 1));
        }
        proof {
            let xi = x as int;
            let yi = y as int;
            let gr = self.is_open(xi + 1, yi);
            let gl = self.is_open(xi - 1, yi);
            let gd = self.is_open(xi, yi + 1);
            let il: int = if gr { 1 } else { 0 };
            let id: int = il + if gl { 1int } else { 0 };
            let iu: int = id + if gd { 1int } else { 0 };
            assert forall|x2: int, y2: int|
                GridMaze::adjacent(xi, yi, x2, y2) && #[trigger] self.is_open(x2, y2) implies exists|
                k: int,
            | 0 <= k < r@.len() && (#[trigger] r@[k]).0 == self.cell(x2, y2) by {
                if x2 == xi + 1 && y2 == yi {
                    assert(r@[0].0 == self.cell(x2, y2));
                } else if x2 + 1 == xi && y2 == yi {
                    assert(r@[il].0 == self.cell(x2, y2));
                } else if x2 == xi && y2 == yi + 1 {
                    assert(r@[id].0 == self.cell(x2, y2));
                } else {
                    assert(r@[iu].0 == self.cell(x2, y2));
                }
            }
            assert forall|k: int| 0 <= k < r@.len() implies 0 <= (#[trigger] r@[k]).0
                < self.open@.len() by {
                let (x2, y2) = choose|x2: int, y2: int|
                    GridMaze::adjacent(x as int, y as int, x2, y2) && self.is_open(x2, y2) && (r@[
                    k]).0 == self.cell(x2, y2);
                self.lemma_cell_bound(x2, y2);
            }
        }
        r
    }

    /// The first open cell of column `x`, scanning `y` downward from 1 and
    /// stopping before the bottom border row, as the image application
    /// locates its start and end cells.
    pub fn find_open_in_column(&self, x: usize) -> (r: Option<usize>)
        requires
            self.wf(),
            x < self.width,
        ensures
            match r {
                Some(y) => 1 <= y < self.height - 1 && self.is_open(x as int, y as int) && (forall|
                    y2: int,
                |
                    1 <= y2 < y ==> !self.is_open(x as int, y2)),
                None => forall|y2: int| 1 <= y2 < self.height - 1 ==> !self.is_open(x as int, y2),
            },
    {
        if self.height < 2 {
            return None;
        }
        let mut y: usize = 1;
        while y < self.height - 1
            invariant
                self.wf(),
                x < self.width,
                self.height >= 2,
                1 <= y <= self.height - 1,
                forall|y2: int| 1 <= y2 < y ==> !self.is_open(x as int, y2),
            decreases self.height - y,
        {
            if self.open_at(x, y) {
                return Some(y);
            }
            y = y + 1;
        }
        None
    }

    /// The maze as a weighted graph: one vertex per cell and a unit edge
    /// from every cell into each open orthogonal neighbor.  As in the image
    /// application, edges leave wall cells too, but only enter open cells.
    pub fn to_graph(&self) -> (g: Graph)
        requires
            self.wf(),
        ensures
            g.wf(),
            g.vertex_count() == self.width * self.height,
            forall|x: int, y: int|
                0 <= x < self.width && 0 <= y < self.height ==> self.row_ok(
                    x,
                    y,
                    #[trigger] g.adj@[self.cell(x, y)]@,
                ),
            forall|x: int, y: int, x2: int, y2: int|
                0 <= x < self.width && 0 <= y < self.height && 0 <= x2 < self.width && 0 <= y2
                    < self.height ==> ((#[trigger] g.has_edge(
                    self.cell(x, y) as usize,
                    self.cell(x2, y2) as usize,
                )) <==> (GridMaze::adjacent(x, y, x2, y2) && self.is_open(x2, y2))),
    {
        let mut adj: Vec<Vec<(usize, u64)>> = Vec::new();
        let mut y: usize = 0;
        while y < self.height
            invariant
                self.wf(),
                y <= self.height,
                adj@.len() == y * self.width,
                forall|cx: int, cy: int|
                    0 <= cx < self.width && 0 <= cy < y ==> 0 <= #[trigger] self.cell(cx, cy)
                        < adj@.len() && self.row_ok(cx, cy, adj@[self.cell(cx, cy)]@),
                forall|u: int, k: int|
                    0 <= u < adj@.len() && 0 <= k < adj@[u]@.len() ==> 0 <= (#[trigger] adj@[u]@[
                        k]).0 < self.open@.len(),
            decreases self.height - y,
        {
            let mut x: usize = 0;
            while x < self.width
                invariant
                    self.wf(),
                    y < self.height,
                    x <= self.width,
                    adj@.len() == y * self.width + x,
                    forall|cx: int, cy: int|
                        0 <= cx < self.width && 0 <= cy < self.height && (cy < y || (cy == y && cx
                            < x)) ==> 0 <= #[trigger] self.cell(cx, cy) < adj@.len()
                            && self.row_ok(cx, cy, adj@[self.cell(cx, cy)]@),
                    forall|u: int, k: int|
                        0 <= u < adj@.len() && 0 <= k < adj@[u]@.len() ==> 0 <= (#[trigger] adj@[
                            u]@[k]).0 < self.open@.len(),
                decreases self.width - x,
            {
                let row = self.neighbor_edges(x, y);
                adj.push(row);
                proof {
                    assert(self.cell(x as int, y as int) == adj@.len() - 1);
                    assert forall|cx: int, cy: int|
                        0 <= cx < self.width && 0 <= cy < self.height && (cy < y || (cy == y && cx
                            < x + 1)) implies 0 <= #[trigger] self.cell(cx, cy) < adj@.len()
                        && self.row_ok(cx, cy, adj@[self.cell(cx, cy)]@) by {
                        if cy == y && cx == x {
                            assert(0 <= cy * self.width) by (nonlinear_arith)
                                requires
                                    0 <= cy,
                                    0 <= self.width,
                            ;
                        } else {
                            self.lemma_cell_prefix(cx, cy, y as int, x as int);
                            assert(0 <= self.cell(cx, cy) < adj@.len() - 1);
                        }
                    }
                }
                x = x + 1;
            }
            proof {
                assert((y + 1) * self.width == y * self.width + self.width) by (nonlinear_arith);
            }
            y = y + 1;
        }
        let g = Graph { adj };
        proof {
            assert(g.adj@.len() == self.height * self.width);
            assert(self.height * self.width == self.width * self.height) by (nonlinear_arith);
            assert forall|x: int, y2: int, x2: int, y3: int|
                0 <= x < self.width && 0 <= y2 < self.height && 0 <= x2 < self.width && 0 <= y3
                    < self.height implies ((#[trigger] g.has_edge(
                self.cell(x, y2) as usize,
                self.cell(x2, y3) as usize,
            )) <==> (GridMaze::adjacent(x, y2, x2, y3) && self.is_open(x2, y3))) by {
                let u = self.cell(x, y2);
                self.lemma_cell_bound(x, y2);
                self.lemma_cell_bound(x2, y3);
                assert(u as usize as int == u);
                assert(self.cell(x2, y3) as usize as int == self.cell(x2, y3));
                assert(self.row_ok(x, y2, g.adj@[u]@));
                if GridMaze::adjacent(x, y2, x2, y3) && self.is_open(x2, y3) {
                    let k = choose|k: int|
                        0 <= k < g.adj@[u]@.len() && (#[trigger] g.adj@[u]@[k]).0 == self.cell(
                            x2,
                            y3,
                        );
                    self.lemma_cell_bound(x2, y3);
                    assert(g.adj@[u]@[k].0 == self.cell(x2, y3) as usize);
                    assert(g.has_edge(u as usize, self.cell(x2, y3) as usize));
                }
                if g.has_edge(u as usize, self.cell(x2, y3) as usize) {
                    let k = choose|k: int|
                        0 <= k < g.adj@[u as usize as int]@.len() && (#[trigger] g.adj@[u as usize
                            as int]@[k]).0 == self.cell(x2, y3) as usize;
                    let (x4, y4) = choose|x4: int, y4: int|
                        GridMaze::adjacent(x, y2, x4, y4) && self.is_open(x4, y4) && (g.adj@[u]@[
                        k]).0 == self.cell(x4, y4);
                    self.lemma_cell_bound(x4, y4);
                    self.lemma_cell_bound(x2, y3);
                    self.lemma_cell_unique(x4, y4, x2, y3);
                }
            }
        }
        g
    }
}

} // verus!
