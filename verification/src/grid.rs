use crate::node::Node;
use vstd::prelude::*;

verus! {

/// Where a grid puts the nodes of a scene.
///
/// The caller derives it from the node positions: the number of cells along
/// each axis, and for every node the quotient of its offset from the grid's
/// corner by the cell size. A quotient may lie outside the grid; it is clamped
/// when the node is placed.
#[derive(Clone, Debug)]
pub struct GridLayout {
    pub cell_count_x: usize,
    pub cell_count_y: usize,
    pub node_cells: Vec<(i32, i32)>,
}

/// A uniform bucket grid over the boundary nodes of a scene.
///
/// `cells[x][y]` lists the boundary nodes that fall into column `x`, row `y`.
#[derive(Debug)]
pub struct Grid {
    pub cells: Vec<Vec<Vec<usize>>>,
    pub cell_count_x: usize,
    pub cell_count_y: usize,
}

/// The cell coordinate for a raw quotient on an axis with `count` cells.
pub open spec fn clamp_cell(raw: int, count: int) -> int {
    if raw >= count {
        count - 1
    } else if raw < 0 {
        0
    } else {
        raw
    }
}

/// Whether two cell coordinates differ by at most one on each axis.
pub open spec fn cells_adjacent(ax: int, ay: int, bx: int, by: int) -> bool {
    &&& -1 <= ax - bx <= 1
    &&& -1 <= ay - by <= 1
}

/// Whether node `i` is a boundary node placed in cell `(x, y)`.
pub open spec fn placed_in<S>(
    nodes: Seq<Node<S>>,
    node_cells: Seq<(i32, i32)>,
    count_x: int,
    count_y: int,
    x: int,
    y: int,
    i: int,
) -> bool {
    &&& nodes[i].is_boundary
    &&& clamp_cell(node_cells[i].0 as int, count_x) == x
    &&& clamp_cell(node_cells[i].1 as int, count_y) == y
}

/// The boundary nodes among the first `n` that are placed in cell `(x, y)`, in
/// increasing order.
pub open spec fn cell_members<S>(
    nodes: Seq<Node<S>>,
    node_cells: Seq<(i32, i32)>,
    count_x: int,
    count_y: int,
    x: int,
    y: int,
    n: int,
) -> Seq<usize>
    decreases n,
{
    if n <= 0 {
        Seq::empty()
    } else if placed_in(nodes, node_cells, count_x, count_y, x, y, n - 1) {
        cell_members(nodes, node_cells, count_x, count_y, x, y, n - 1).push((n - 1) as usize)
    } else {
        cell_members(nodes, node_cells, count_x, count_y, x, y, n - 1)
    }
}

/// A cell holds exactly the nodes placed in it.
pub proof fn lemma_cell_members<S>(
    nodes: Seq<Node<S>>,
    node_cells: Seq<(i32, i32)>,
    count_x: int,
    count_y: int,
    x: int,
    y: int,
    n: int,
)
    requires
        0 <= n <= usize::MAX,
    ensures
        forall|j: usize| #[trigger]
            cell_members(nodes, node_cells, count_x, count_y, x, y, n).contains(j) <==> j < n
                && placed_in(nodes, node_cells, count_x, count_y, x, y, j as int),
    decreases n,
{
    let now = cell_members(nodes, node_cells, count_x, count_y, x, y, n);
    if n > 0 {
        let before = cell_members(nodes, node_cells, count_x, count_y, x, y, n - 1);
        lemma_cell_members(nodes, node_cells, count_x, count_y, x, y, n - 1);
        assert forall|j: usize| #[trigger] now.contains(j) <==> j < n && placed_in(
            nodes,
            node_cells,
            count_x,
            count_y,
            x,
            y,
            j as int,
        ) by {
            if placed_in(nodes, node_cells, count_x, count_y, x, y, n - 1) {
                if now.contains(j) {
                    let t = choose|t: int| 0 <= t < now.len() && now[t] == j;
                    if t < before.len() {
                        assert(before[t] == j);
                        assert(before.contains(j));
                    }
                }
                if j < n && placed_in(nodes, node_cells, count_x, count_y, x, y, j as int) {
                    if j == n - 1 {
                        assert(now[now.len() - 1] == j);
                    } else {
                        assert(before.contains(j));
                        let t = choose|t: int| 0 <= t < before.len() && before[t] == j;
                        assert(now[t] == j);
                    }
                }
            }
        }
    }
}

impl GridLayout {
    /// Whether node `i` and node `j` are placed in the same cell or in cells
    /// that touch, corners included.
    pub open spec fn adjacent(&self, i: int, j: int) -> bool {
        cells_adjacent(
            clamp_cell(self.node_cells@[i].0 as int, self.cell_count_x as int),
            clamp_cell(self.node_cells@[i].1 as int, self.cell_count_y as int),
            clamp_cell(self.node_cells@[j].0 as int, self.cell_count_x as int),
            clamp_cell(self.node_cells@[j].1 as int, self.cell_count_y as int),
        )
    }
}

impl Grid {
    /// The cell table has `cell_count_x` columns of `cell_count_y` rows.
    pub open spec fn wf(&self) -> bool {
        &&& self.cells@.len() == self.cell_count_x
        &&& forall|x: int|
            0 <= x < self.cells@.len() ==> (#[trigger] self.cells@[x])@.len() == self.cell_count_y
    }

    /// Whether the grid has no cell at all.
    pub open spec fn is_empty(&self) -> bool {
        self.cell_count_x == 0 || self.cell_count_y == 0
    }

    /// The nodes in cell `(x, y)`; nothing outside the grid.
    pub open spec fn cell(&self, x: int, y: int) -> Seq<usize> {
        if 0 <= x < self.cell_count_x && 0 <= y < self.cell_count_y {
            self.cells@[x]@[y]@
        } else {
            Seq::empty()
        }
    }

    /// Every node index stored in the grid is below `n`.
    pub open spec fn holds_below(&self, n: int) -> bool {
        forall|x: int, y: int, k: int|
            0 <= x < self.cell_count_x && 0 <= y < self.cell_count_y && 0 <= k < self.cell(
                x,
                y,
            ).len() ==> (#[trigger] self.cell(x, y)[k]) < n
    }

    /// The grid is the one that `new` builds for these nodes and this layout.
    pub open spec fn built_from<S>(&self, nodes: Seq<Node<S>>, layout: &GridLayout) -> bool {
        &&& self.wf()
        &&& self.cell_count_x == layout.cell_count_x
        &&& self.cell_count_y == layout.cell_count_y
        &&& forall|x: int, y: int|
            0 <= x < self.cell_count_x && 0 <= y < self.cell_count_y ==> #[trigger] self.cell(x, y)
                == cell_members(
                nodes,
                layout.node_cells@,
                self.cell_count_x as int,
                self.cell_count_y as int,
                x,
                y,
                nodes.len() as int,
            )
    }

    /// The cell of a raw quotient pair, clamped into the grid.
    pub open spec fn cell_index(&self, x: i32, y: i32) -> (int, int) {
        (clamp_cell(x as int, self.cell_count_x as int), clamp_cell(y as int, self.cell_count_y as int))
    }

    /// The nodes in the 3x3 block of cells around the cell of `(x, y)`: the cell
    /// itself, the two next to it in its column, the two next to it in its row,
    /// then the four corners. Cells outside
    /// the grid contribute nothing; an empty grid has no neighbourhood.
    pub open spec fn neighbourhood(&self, x: i32, y: i32) -> Seq<usize> {
        if self.is_empty() {
            Seq::empty()
        } else {
            let (cx, cy) = self.cell_index(x, y);
            self.cell(cx, cy) + self.cell(cx, cy - 1) + self.cell(cx, cy + 1) + self.cell(
                cx - 1,
                cy,
            ) + self.cell(cx + 1, cy) + self.cell(cx - 1, cy - 1) + self.cell(cx - 1, cy + 1)
                + self.cell(cx + 1, cy - 1) + self.cell(cx + 1, cy + 1)
        }
    }

    /// Builds the grid for `nodes`: `layout.cell_count_x` by
    /// `layout.cell_count_y` cells, each boundary node in the cell that its
    /// clamped quotient names. Interior nodes are left out.
    pub fn new<S: Copy>(nodes: &Vec<Node<S>>, layout: &GridLayout) -> (out: Grid)
        requires
            layout.node_cells@.len() == nodes@.len(),
        ensures
            out.built_from(nodes@, layout),
            out.holds_below(nodes@.len() as int),
    {
        let count_x = layout.cell_count_x;
        let count_y = layout.cell_count_y;
        let mut cells: Vec<Vec<Vec<usize>>> = Vec::new();
        let mut x: usize = 0;
        while x < count_x
            invariant
                x <= count_x,
                cells@.len() == x,
                forall|c: int| 0 <= c < x ==> (#[trigger] cells@[c])@.len() == count_y,
                forall|c: int, r: int|
                    0 <= c < x && 0 <= r < count_y ==> (#[trigger] cells@[c]@[r])@.len() == 0,
            decreases count_x - x,
        {
            let mut column: Vec<Vec<usize>> = Vec::new();
            let mut y: usize = 0;
            while y < count_y
                invariant
                    y <= count_y,
                    column@.len() == y,
                    forall|r: int| 0 <= r < y ==> (#[trigger] column@[r])@.len() == 0,
                decreases count_y - y,
            {
                column.push(Vec::new());
                y += 1;
            }
            cells.push(column);
            x += 1;
        }
        let mut grid = Grid { cells, cell_count_x: count_x, cell_count_y: count_y };
        if count_x == 0 || count_y == 0 {
            return grid;
        }
        let mut i: usize = 0;
        while i < nodes.len()
            invariant
                i <= nodes@.len(),
                layout.node_cells@.len() == nodes@.len(),
                count_x > 0,
                count_y > 0,
                grid.cell_count_x == count_x,
                grid.cell_count_y == count_y,
                count_x == layout.cell_count_x,
                count_y == layout.cell_count_y,
                grid.wf(),
                forall|c: int, r: int|
                    0 <= c < count_x && 0 <= r < count_y ==> #[trigger] grid.cell(c, r)
                        == cell_members(
                        nodes@,
                        layout.node_cells@,
                        count_x as int,
                        count_y as int,
                        c,
                        r,
                        i as int,
                    ),
            decreases nodes@.len() - i,
        {
            if nodes[i].is_boundary {
                let raw = layout.node_cells[i];
                let cx = clamp_index(raw.0, count_x);
                let cy = clamp_index(raw.1, count_y);
                let ghost before = grid;
                grid.cells[cx][cy].push(i);
                proof {
                    assert(grid.cells@.len() == before.cells@.len());
                    assert forall|c: int| 0 <= c < grid.cells@.len() implies (
                    #[trigger] grid.cells@[c])@.len() == count_y by {
                        assert(before.cells@[c]@.len() == count_y);
                    }
                    assert forall|c: int, r: int|
                        0 <= c < count_x && 0 <= r < count_y implies #[trigger] grid.cell(c, r)
                        == cell_members(
                        nodes@,
                        layout.node_cells@,
                        count_x as int,
                        count_y as int,
                        c,
                        r,
                        i + 1,
                    ) by {
                        assert(before.cell(c, r) == cell_members(
                            nodes@,
                            layout.node_cells@,
                            count_x as int,
                            count_y as int,
                            c,
                            r,
                            i as int,
                        ));
                        if c == cx && r == cy {
                            assert(grid.cell(c, r) == before.cell(c, r).push(i));
                        } else {
                            assert(grid.cell(c, r) == before.cell(c, r));
                        }
                    }
                }
            }
            i += 1;
        }
        proof {
            assert forall|c: int, r: int, k: int|
                0 <= c < grid.cell_count_x && 0 <= r < grid.cell_count_y && 0 <= k < grid.cell(
                    c,
                    r,
                ).len() implies (#[trigger] grid.cell(c, r)[k]) < nodes@.len() by {
                lemma_cell_members(
                    nodes@,
                    layout.node_cells@,
                    count_x as int,
                    count_y as int,
                    c,
                    r,
                    nodes@.len() as int,
                );
                assert(grid.cell(c, r) == cell_members(
                    nodes@,
                    layout.node_cells@,
                    count_x as int,
                    count_y as int,
                    c,
                    r,
                    nodes@.len() as int,
                ));
                assert(grid.cell(c, r).contains(grid.cell(c, r)[k]));
            }
        }
        grid
    }

    /// The cell that holds a point, given the raw quotients of its offset by
    /// the cell size: clamped into the grid on both axes, `None` when the grid
    /// has no cell.
    pub fn get_cell_index(&self, x: i32, y: i32) -> (out: Option<(usize, usize)>)
        ensures
            out is None <==> self.is_empty(),
            out matches Some(c) ==> (c.0 as int, c.1 as int) == self.cell_index(x, y)
                && c.0 < self.cell_count_x && c.1 < self.cell_count_y,
    {
        if self.cell_count_x == 0 || self.cell_count_y == 0 {
            None
        } else {
            Some((clamp_index(x, self.cell_count_x), clamp_index(y, self.cell_count_y)))
        }
    }

    /// Appends the nodes of cell `(x, y)` to `out`.
    fn append_cell(&self, out: &mut Vec<usize>, x: usize, y: usize)
        requires
            self.wf(),
            x < self.cell_count_x,
            y < self.cell_count_y,
        ensures
            final(out)@ == old(out)@ + self.cell(x as int, y as int),
    {
        let cell = &self.cells[x][y];
        let mut k: usize = 0;
        while k < cell.len()
            invariant
                k <= cell@.len(),
                out@ == old(out)@ + cell@.take(k as int),
            decreases cell@.len() - k,
        {
            out.push(cell[k]);
            proof {
                assert(cell@.take(k + 1) =~= cell@.take(k as int).push(cell@[k as int]));
            }
            k += 1;
        }
        proof {
            assert(cell@.take(cell@.len() as int) =~= cell@);
        }
    }

    /// The nodes in the cell of a point and in the eight cells around it; the
    /// point is given by the raw quotients of its offset by the cell size.
    ///
    /// A node is listed once for each cell of the block that holds it, so
    /// never twice for a grid that `new` built. An empty grid gives an empty
    /// list.
    pub fn get_node_indexes_from_neighbours(&self, x: i32, y: i32) -> (out: Vec<usize>)
        requires
            self.wf(),
        ensures
            out@ == self.neighbourhood(x, y),
    {
        let mut neighbours: Vec<usize> = Vec::new();
        let (x, y) = match self.get_cell_index(x, y) {
            Some(c) => c,
            None => {
                return neighbours;
            },
        };
        let ghost cx = x as int;
        let ghost cy = y as int;
        proof {
            assert(neighbours@ =~= Seq::<usize>::empty() + Seq::<usize>::empty());
        }
        self.append_cell(&mut neighbours, x, y);
        if y > 0 {
            self.append_cell(&mut neighbours, x, y - 1);
        }
        if y < self.cell_count_y - 1 {
            self.append_cell(&mut neighbours, x, y + 1);
        }
        if x > 0 {
            self.append_cell(&mut neighbours, x - 1, y);
        }
        if x < self.cell_count_x - 1 {
            self.append_cell(&mut neighbours, x + 1, y);
        }
        if x > 0 && y > 0 {
            self.append_cell(&mut neighbours, x - 1, y - 1);
        }
        if x > 0 && y < self.cell_count_y - 1 {
            self.append_cell(&mut neighbours, x - 1, y + 1);
        }
        if x < self.cell_count_x - 1 && y > 0 {
            self.append_cell(&mut neighbours, x + 1, y - 1);
        }
        if x < self.cell_count_x - 1 && y < self.cell_count_y - 1 {
            self.append_cell(&mut neighbours, x + 1, y + 1);
        }
        proof {
            assert(neighbours@ =~= self.cell(cx, cy) + self.cell(cx, cy - 1) + self.cell(
                cx,
                cy + 1,
            ) + self.cell(cx - 1, cy) + self.cell(cx + 1, cy) + self.cell(cx - 1, cy - 1)
                + self.cell(cx - 1, cy + 1) + self.cell(cx + 1, cy - 1) + self.cell(
                cx + 1,
                cy + 1,
            ));
        }
        neighbours
    }
}

/// The cell coordinate for a raw quotient on an axis with `count` cells.
fn clamp_index(raw: i32, count: usize) -> (out: usize)
    requires
        count > 0,
    ensures
        out == clamp_cell(raw as int, count as int),
        out < count,
{
    if raw < 0 {
        0
    } else {
        let r = raw as usize;
        if r >= count {
            count - 1
        } else {
            r
        }
    }
}

/// No false negatives: for a grid built by `new`, the neighbourhood of a point
/// holds exactly the boundary nodes whose cell is the point's cell or touches
/// it.
pub proof fn lemma_neighbourhood_complete<S>(
    grid: &Grid,
    nodes: Seq<Node<S>>,
    layout: &GridLayout,
    x: i32,
    y: i32,
    j: usize,
)
    requires
        grid.built_from(nodes, layout),
        layout.node_cells@.len() == nodes.len(),
        nodes.len() <= usize::MAX,
        !grid.is_empty(),
    ensures
        grid.neighbourhood(x, y).contains(j) <==> j < nodes.len() && nodes[j as int].is_boundary
            && cells_adjacent(
            clamp_cell(layout.node_cells@[j as int].0 as int, grid.cell_count_x as int),
            clamp_cell(layout.node_cells@[j as int].1 as int, grid.cell_count_y as int),
            grid.cell_index(x, y).0,
            grid.cell_index(x, y).1,
        ),
{
    let (cx, cy) = grid.cell_index(x, y);
    let nx = grid.cell_count_x as int;
    let ny = grid.cell_count_y as int;
    let n = nodes.len() as int;
    let cells = layout.node_cells@;
    assert forall|c: int, r: int| #[trigger]
        grid.cell(c, r).contains(j) <==> 0 <= c < nx && 0 <= r < ny && j < n && placed_in(
            nodes,
            cells,
            nx,
            ny,
            c,
            r,
            j as int,
        ) by {
        if 0 <= c < nx && 0 <= r < ny {
            lemma_cell_members(nodes, cells, nx, ny, c, r, n);
            assert(grid.cell(c, r) == cell_members(nodes, cells, nx, ny, c, r, n));
        }
    }
    let s0 = grid.cell(cx, cy);
    let s1 = s0 + grid.cell(cx, cy - 1);
    let s2 = s1 + grid.cell(cx, cy + 1);
    let s3 = s2 + grid.cell(cx - 1, cy);
    let s4 = s3 + grid.cell(cx + 1, cy);
    let s5 = s4 + grid.cell(cx - 1, cy - 1);
    let s6 = s5 + grid.cell(cx - 1, cy + 1);
    let s7 = s6 + grid.cell(cx + 1, cy - 1);
    let s8 = s7 + grid.cell(cx + 1, cy + 1);
    lemma_concat_contains(s0, grid.cell(cx, cy - 1), j);
    lemma_concat_contains(s1, grid.cell(cx, cy + 1), j);
    lemma_concat_contains(s2, grid.cell(cx - 1, cy), j);
    lemma_concat_contains(s3, grid.cell(cx + 1, cy), j);
    lemma_concat_contains(s4, grid.cell(cx - 1, cy - 1), j);
    lemma_concat_contains(s5, grid.cell(cx - 1, cy + 1), j);
    lemma_concat_contains(s6, grid.cell(cx + 1, cy - 1), j);
    lemma_concat_contains(s7, grid.cell(cx + 1, cy + 1), j);
    assert(grid.neighbourhood(x, y) == s8);
    if j < n {
        let jx = clamp_cell(cells[j as int].0 as int, nx);
        let jy = clamp_cell(cells[j as int].1 as int, ny);
        assert(0 <= jx < nx && 0 <= jy < ny);
    }
}

/// Every node listed in a neighbourhood is one that the grid holds.
pub proof fn lemma_neighbourhood_below(grid: &Grid, x: i32, y: i32, n: int)
    requires
        grid.holds_below(n),
    ensures
        forall|t: int|
            0 <= t < grid.neighbourhood(x, y).len() ==> (#[trigger] grid.neighbourhood(x, y)[t])
                < n,
{
    if !grid.is_empty() {
        let (cx, cy) = grid.cell_index(x, y);
        let s0 = grid.cell(cx, cy);
        let s1 = s0 + grid.cell(cx, cy - 1);
        let s2 = s1 + grid.cell(cx, cy + 1);
        let s3 = s2 + grid.cell(cx - 1, cy);
        let s4 = s3 + grid.cell(cx + 1, cy);
        let s5 = s4 + grid.cell(cx - 1, cy - 1);
        let s6 = s5 + grid.cell(cx - 1, cy + 1);
        let s7 = s6 + grid.cell(cx + 1, cy - 1);
        let s8 = s7 + grid.cell(cx + 1, cy + 1);
        assert forall|a: int, b: int, k: int| 0 <= k < grid.cell(a, b).len() implies (
        #[trigger] grid.cell(a, b)[k]) < n by {}
        assert(forall|t: int| 0 <= t < s0.len() ==> (#[trigger] s0[t]) < n);
        assert(forall|t: int| 0 <= t < s1.len() ==> (#[trigger] s1[t]) < n);
        assert(forall|t: int| 0 <= t < s2.len() ==> (#[trigger] s2[t]) < n);
        assert(forall|t: int| 0 <= t < s3.len() ==> (#[trigger] s3[t]) < n);
        assert(forall|t: int| 0 <= t < s4.len() ==> (#[trigger] s4[t]) < n);
        assert(forall|t: int| 0 <= t < s5.len() ==> (#[trigger] s5[t]) < n);
        assert(forall|t: int| 0 <= t < s6.len() ==> (#[trigger] s6[t]) < n);
        assert(forall|t: int| 0 <= t < s7.len() ==> (#[trigger] s7[t]) < n);
        assert(forall|t: int| 0 <= t < s8.len() ==> (#[trigger] s8[t]) < n);
    }
}

/// The grid never misses a close node: a boundary node whose raw quotients
/// differ from those of a point by at most one on each axis is listed in the
/// neighbourhood of that point. With cells at least as wide as the search
/// radius, every boundary node within the radius is such a node.
pub proof fn lemma_no_false_negatives<S>(
    grid: &Grid,
    nodes: Seq<Node<S>>,
    layout: &GridLayout,
    x: i32,
    y: i32,
    j: usize,
)
    requires
        grid.built_from(nodes, layout),
        layout.node_cells@.len() == nodes.len(),
        nodes.len() <= usize::MAX,
        !grid.is_empty(),
        j < nodes.len(),
        nodes[j as int].is_boundary,
        cells_adjacent(
            layout.node_cells@[j as int].0 as int,
            layout.node_cells@[j as int].1 as int,
            x as int,
            y as int,
        ),
    ensures
        grid.neighbourhood(x, y).contains(j),
{
    lemma_clamp_keeps_adjacency(
        layout.node_cells@[j as int].0 as int,
        layout.node_cells@[j as int].1 as int,
        x as int,
        y as int,
        grid.cell_count_x as int,
        grid.cell_count_y as int,
    );
    lemma_neighbourhood_complete(grid, nodes, layout, x, y, j);
}

/// Clamping keeps cells together: two points whose raw quotients differ by at
/// most one on each axis are placed in the same cell or in cells that touch.
pub proof fn lemma_clamp_keeps_adjacency(
    ax: int,
    ay: int,
    bx: int,
    by: int,
    count_x: int,
    count_y: int,
)
    requires
        cells_adjacent(ax, ay, bx, by),
        count_x > 0,
        count_y > 0,
    ensures
        cells_adjacent(
            clamp_cell(ax, count_x),
            clamp_cell(ay, count_y),
            clamp_cell(bx, count_x),
            clamp_cell(by, count_y),
        ),
{
}

/// A cell lists its nodes in increasing order, so none twice.
pub proof fn lemma_cell_members_sorted<S>(
    nodes: Seq<Node<S>>,
    node_cells: Seq<(i32, i32)>,
    count_x: int,
    count_y: int,
    x: int,
    y: int,
    n: int,
)
    requires
        0 <= n <= usize::MAX,
    ensures
        forall|a: int, b: int|
            0 <= a < b < cell_members(nodes, node_cells, count_x, count_y, x, y, n).len()
                ==> cell_members(nodes, node_cells, count_x, count_y, x, y, n)[a] < cell_members(
                nodes,
                node_cells,
                count_x,
                count_y,
                x,
                y,
                n,
            )[b],
        forall|a: int|
            0 <= a < cell_members(nodes, node_cells, count_x, count_y, x, y, n).len()
                ==> cell_members(nodes, node_cells, count_x, count_y, x, y, n)[a] < n,
        cell_members(nodes, node_cells, count_x, count_y, x, y, n).no_duplicates(),
    decreases n,
{
    if n > 0 {
        lemma_cell_members_sorted(nodes, node_cells, count_x, count_y, x, y, n - 1);
    }
}

/// Appending a part whose items live elsewhere than all items so far keeps a
/// list free of duplicates.
proof fn lemma_extend_distinct(
    acc: Seq<usize>,
    part: Seq<usize>,
    home: spec_fn(usize) -> (int, int),
    seen: Set<(int, int)>,
    at: (int, int),
)
    requires
        acc.no_duplicates(),
        part.no_duplicates(),
        forall|item: usize| acc.contains(item) ==> seen.contains(#[trigger] home(item)),
        forall|item: usize| part.contains(item) ==> #[trigger] home(item) == at,
        !seen.contains(at),
    ensures
        (acc + part).no_duplicates(),
        forall|item: usize|
            (acc + part).contains(item) ==> seen.insert(at).contains(#[trigger] home(item)),
{
    let all = acc + part;
    assert forall|i: int, j: int| 0 <= i < all.len() && 0 <= j < all.len() && i != j implies all[i]
        != all[j] by {
        if i < acc.len() && j < acc.len() {
            assert(acc[i] != acc[j]);
        } else if i >= acc.len() && j >= acc.len() {
            assert(part[i - acc.len()] != part[j - acc.len()]);
        } else {
            let (inner, outer) = if i < acc.len() {
                (i, j - acc.len())
            } else {
                (j, i - acc.len())
            };
            assert(acc.contains(acc[inner]));
            assert(part.contains(part[outer]));
            assert(seen.contains(home(acc[inner])));
            assert(home(part[outer]) == at);
        }
    }
    assert forall|item: usize| all.contains(item) implies seen.insert(at).contains(
        #[trigger] home(item),
    ) by {
        lemma_concat_contains(acc, part, item);
    }
}

/// For a grid built by `new`, no node is listed twice in a neighbourhood.
pub proof fn lemma_neighbourhood_distinct<S>(
    grid: &Grid,
    nodes: Seq<Node<S>>,
    layout: &GridLayout,
    x: i32,
    y: i32,
)
    requires
        grid.built_from(nodes, layout),
        layout.node_cells@.len() == nodes.len(),
        nodes.len() <= usize::MAX,
    ensures
        grid.neighbourhood(x, y).no_duplicates(),
{
    if !grid.is_empty() {
        let (cx, cy) = grid.cell_index(x, y);
        let nx = grid.cell_count_x as int;
        let ny = grid.cell_count_y as int;
        let n = nodes.len() as int;
        let cells = layout.node_cells@;
        let home = |j: usize|
            (clamp_cell(cells[j as int].0 as int, nx), clamp_cell(cells[j as int].1 as int, ny));
        assert forall|c: int, r: int|
            (#[trigger] grid.cell(c, r)).no_duplicates() && forall|item: usize|
                grid.cell(c, r).contains(item) ==> #[trigger] home(item) == (c, r) by {
            if 0 <= c < nx && 0 <= r < ny {
                lemma_cell_members(nodes, cells, nx, ny, c, r, n);
                lemma_cell_members_sorted(nodes, cells, nx, ny, c, r, n);
                assert(grid.cell(c, r) == cell_members(nodes, cells, nx, ny, c, r, n));
            }
        }
        let s0 = grid.cell(cx, cy);
        let s1 = s0 + grid.cell(cx, cy - 1);
        let s2 = s1 + grid.cell(cx, cy + 1);
        let s3 = s2 + grid.cell(cx - 1, cy);
        let s4 = s3 + grid.cell(cx + 1, cy);
        let s5 = s4 + grid.cell(cx - 1, cy - 1);
        let s6 = s5 + grid.cell(cx - 1, cy + 1);
        let s7 = s6 + grid.cell(cx + 1, cy - 1);
        let v0 = set![(cx, cy)];
        let v1 = v0.insert((cx, cy - 1));
        let v2 = v1.insert((cx, cy + 1));
        let v3 = v2.insert((cx - 1, cy));
        let v4 = v3.insert((cx + 1, cy));
        let v5 = v4.insert((cx - 1, cy - 1));
        let v6 = v5.insert((cx - 1, cy + 1));
        let v7 = v6.insert((cx + 1, cy - 1));
        lemma_extend_distinct(s0, grid.cell(cx, cy - 1), home, v0, (cx, cy - 1));
        lemma_extend_distinct(s1, grid.cell(cx, cy + 1), home, v1, (cx, cy + 1));
        lemma_extend_distinct(s2, grid.cell(cx - 1, cy), home, v2, (cx - 1, cy));
        lemma_extend_distinct(s3, grid.cell(cx + 1, cy), home, v3, (cx + 1, cy));
        lemma_extend_distinct(s4, grid.cell(cx - 1, cy - 1), home, v4, (cx - 1, cy - 1));
        lemma_extend_distinct(s5, grid.cell(cx - 1, cy + 1), home, v5, (cx - 1, cy + 1));
        lemma_extend_distinct(s6, grid.cell(cx + 1, cy - 1), home, v6, (cx + 1, cy - 1));
        lemma_extend_distinct(s7, grid.cell(cx + 1, cy + 1), home, v7, (cx + 1, cy + 1));
    }
}

/// An item is in a concatenation exactly when it is in one of the parts.
pub proof fn lemma_concat_contains<T>(a: Seq<T>, b: Seq<T>, item: T)
    ensures
        (a + b).contains(item) <==> a.contains(item) || b.contains(item),
{
    if (a + b).contains(item) {
        let t = choose|t: int| 0 <= t < (a + b).len() && (a + b)[t] == item;
        if t < a.len() {
            assert(a[t] == item);
        } else {
            assert(b[t - a.len()] == item);
        }
    }
    if a.contains(item) {
        let t = choose|t: int| 0 <= t < a.len() && a[t] == item;
        assert((a + b)[t] == item);
    }
    if b.contains(item) {
        let t = choose|t: int| 0 <= t < b.len() && b[t] == item;
        assert((a + b)[t + a.len()] == item);
    }
}

} // verus!
