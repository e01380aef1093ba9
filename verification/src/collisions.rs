use crate::grid::Grid;
use crate::grid::GridLayout;
use crate::grid::lemma_neighbourhood_below;
use crate::grid::lemma_neighbourhood_complete;
use crate::grid::lemma_neighbourhood_distinct;
use crate::node::Node;
use crate::parallel::par_map_indices;
use std::collections::HashMap;
use vstd::prelude::*;

verus! {

/// Whether `j` is a candidate for repulsion from node `i`: a boundary node of
/// another body.
pub open spec fn repels<S>(nodes: Seq<Node<S>>, i: int, j: int) -> bool {
    nodes[j].is_boundary && nodes[i].object_id != nodes[j].object_id
}

/// The candidates for node `i` among the first `n` nodes, in increasing order.
pub open spec fn candidates_below<S>(nodes: Seq<Node<S>>, i: int, n: int) -> Seq<usize>
    decreases n,
{
    if n <= 0 {
        Seq::empty()
    } else if repels(nodes, i, n - 1) {
        candidates_below(nodes, i, n - 1).push((n - 1) as usize)
    } else {
        candidates_below(nodes, i, n - 1)
    }
}

/// The brute-force candidate list of node `i`: every boundary node of another
/// body if `i` is a boundary node, nothing otherwise.
pub open spec fn simple_row<S>(nodes: Seq<Node<S>>, i: int) -> Seq<usize> {
    if nodes[i].is_boundary {
        candidates_below(nodes, i, nodes.len() as int)
    } else {
        Seq::empty()
    }
}

/// The members of `found` that belong to another body than node `i`, in their
/// old order.
pub open spec fn other_bodies<S>(nodes: Seq<Node<S>>, i: int, found: Seq<usize>) -> Seq<usize>
    decreases found.len(),
{
    if found.len() == 0 {
        Seq::empty()
    } else if nodes[found.last() as int].object_id != nodes[i].object_id {
        other_bodies(nodes, i, found.drop_last()).push(found.last())
    } else {
        other_bodies(nodes, i, found.drop_last())
    }
}

/// The grid-accelerated candidate list of node `i`: the nodes of other bodies
/// in the 3x3 block of cells around it if `i` is a boundary node, nothing
/// otherwise.
pub open spec fn grid_row<S>(
    nodes: Seq<Node<S>>,
    grid: &Grid,
    node_cells: Seq<(i32, i32)>,
    i: int,
) -> Seq<usize> {
    if nodes[i].is_boundary {
        other_bodies(nodes, i, grid.neighbourhood(node_cells[i].0, node_cells[i].1))
    } else {
        Seq::empty()
    }
}

/// The brute-force candidate list of one node.
fn simple_candidates<S: Copy>(nodes: &Vec<Node<S>>, i: usize) -> (out: Vec<usize>)
    requires
        i < nodes@.len(),
    ensures
        out@ == simple_row(nodes@, i as int),
{
    let mut row: Vec<usize> = Vec::new();
    if nodes[i].is_boundary {
        let mut j: usize = 0;
        while j < nodes.len()
            invariant
                j <= nodes@.len(),
                i < nodes@.len(),
                row@ == candidates_below(nodes@, i as int, j as int),
            decreases nodes@.len() - j,
        {
            if nodes[j].is_boundary && nodes[i].object_id != nodes[j].object_id {
                row.push(j);
            }
            j += 1;
        }
    }
    row
}

/// The grid-accelerated candidate list of one node.
fn grid_candidates<S: Copy>(
    nodes: &Vec<Node<S>>,
    grid: &Grid,
    layout: &GridLayout,
    i: usize,
) -> (out: Vec<usize>)
    requires
        i < nodes@.len(),
        layout.node_cells@.len() == nodes@.len(),
        grid.wf(),
        grid.holds_below(nodes@.len() as int),
    ensures
        out@ == grid_row(nodes@, grid, layout.node_cells@, i as int),
{
    let mut row: Vec<usize> = Vec::new();
    if nodes[i].is_boundary {
        let raw = layout.node_cells[i];
        let found = grid.get_node_indexes_from_neighbours(raw.0, raw.1);
        proof {
            lemma_neighbourhood_below(grid, raw.0, raw.1, nodes@.len() as int);
        }
        let mut k: usize = 0;
        while k < found.len()
            invariant
                k <= found@.len(),
                i < nodes@.len(),
                forall|t: int| 0 <= t < found@.len() ==> (#[trigger] found@[t]) < nodes@.len(),
                row@ == other_bodies(nodes@, i as int, found@.take(k as int)),
            decreases found@.len() - k,
        {
            let j = found[k];
            proof {
                assert(found@.take(k + 1).drop_last() =~= found@.take(k as int));
            }
            if nodes[j].object_id != nodes[i].object_id {
                row.push(j);
            }
            k += 1;
        }
        proof {
            assert(found@.take(found@.len() as int) =~= found@);
        }
    }
    row
}

/// Whether `structure` is the brute-force collision structure of `nodes`.
pub open spec fn is_simple_structure<S>(structure: Seq<Vec<usize>>, nodes: Seq<Node<S>>) -> bool {
    &&& structure.len() == nodes.len()
    &&& forall|i: int| 0 <= i < nodes.len() ==> (#[trigger] structure[i])@ == simple_row(nodes, i)
}

/// Whether `structure` is the grid-accelerated collision structure of `nodes`.
pub open spec fn is_grid_structure<S>(
    structure: Seq<Vec<usize>>,
    nodes: Seq<Node<S>>,
    grid: &Grid,
    node_cells: Seq<(i32, i32)>,
) -> bool {
    &&& structure.len() == nodes.len()
    &&& forall|i: int|
        0 <= i < nodes.len() ==> (#[trigger] structure[i])@ == grid_row(nodes, grid, node_cells, i)
}

/// Builds the collision structure by brute force: for every boundary node,
/// all boundary nodes of other bodies; for every other node, nothing.
pub fn calculate_collisions_structure_simple<S: Copy + Sync>(nodes: &Vec<Node<S>>) -> (out: Vec<
    Vec<usize>,
>)
    ensures
        is_simple_structure(out@, nodes@),
{
    let row_of = |i: usize| -> (row: Vec<usize>)
        requires
            i < nodes@.len(),
        ensures
            row@ == simple_row(nodes@, i as int),
        { simple_candidates(nodes, i) };
    par_map_indices(nodes.len(), row_of)
}

/// Builds the collision structure from the grid: for every boundary node, the
/// nodes of other bodies in the 3x3 block of cells around it; for every other
/// node, nothing.
pub fn calculate_collisions_structure_with_grid<S: Copy + Sync>(
    nodes: &Vec<Node<S>>,
    grid: &Grid,
    layout: &GridLayout,
) -> (out: Vec<Vec<usize>>)
    requires
        layout.node_cells@.len() == nodes@.len(),
        grid.wf(),
        grid.holds_below(nodes@.len() as int),
    ensures
        is_grid_structure(out@, nodes@, grid, layout.node_cells@),
{
    let row_of = |i: usize| -> (row: Vec<usize>)
        requires
            i < nodes@.len(),
        ensures
            row@ == grid_row(nodes@, grid, layout.node_cells@, i as int),
        { grid_candidates(nodes, grid, layout, i) };
    par_map_indices(nodes.len(), row_of)
}

/// Whether two node arrays agree on everything but the numeric state of the
/// nodes: the same length, the same bodies, the same boundary flags.
pub open spec fn same_topology<S>(a: Seq<Node<S>>, b: Seq<Node<S>>) -> bool {
    &&& a.len() == b.len()
    &&& forall|i: int|
        0 <= i < a.len() ==> (#[trigger] a[i]).object_id == b[i].object_id && a[i].is_boundary
            == b[i].is_boundary
}

/// Moving the nodes does not change the brute-force candidates: they depend
/// on bodies and boundary flags alone.
pub proof fn lemma_simple_row_ignores_state<S>(a: Seq<Node<S>>, b: Seq<Node<S>>, i: int)
    requires
        same_topology(a, b),
        0 <= i < a.len(),
    ensures
        simple_row(a, i) == simple_row(b, i),
{
    lemma_candidates_ignore_state(a, b, i, a.len() as int);
}

/// The candidates among the first `n` nodes depend on bodies and boundary
/// flags alone.
pub proof fn lemma_candidates_ignore_state<S>(a: Seq<Node<S>>, b: Seq<Node<S>>, i: int, n: int)
    requires
        same_topology(a, b),
        0 <= i < a.len(),
        n <= a.len(),
    ensures
        candidates_below(a, i, n) == candidates_below(b, i, n),
    decreases n,
{
    if n > 0 {
        lemma_candidates_ignore_state(a, b, i, n - 1);
        assert(a[n - 1].object_id == b[n - 1].object_id);
        assert(a[i].object_id == b[i].object_id);
    }
}

/// The brute-force list of `i` holds exactly the candidates of `i`.
pub proof fn lemma_candidates_below<S>(nodes: Seq<Node<S>>, i: int, n: int, j: usize)
    requires
        0 <= n <= usize::MAX,
    ensures
        candidates_below(nodes, i, n).contains(j) <==> j < n && repels(nodes, i, j as int),
    decreases n,
{
    let now = candidates_below(nodes, i, n);
    if n > 0 {
        let before = candidates_below(nodes, i, n - 1);
        lemma_candidates_below(nodes, i, n - 1, j);
        if repels(nodes, i, n - 1) {
            if now.contains(j) {
                let t = choose|t: int| 0 <= t < now.len() && now[t] == j;
                if t < before.len() {
                    assert(before[t] == j);
                }
            }
            if before.contains(j) {
                let t = choose|t: int| 0 <= t < before.len() && before[t] == j;
                assert(now[t] == j);
            }
            if j == n - 1 {
                assert(now[now.len() - 1] == j);
            }
        }
    }
}

/// Filtering by body keeps exactly the members that belong to another body.
pub proof fn lemma_other_bodies<S>(nodes: Seq<Node<S>>, i: int, found: Seq<usize>, j: usize)
    ensures
        other_bodies(nodes, i, found).contains(j) <==> found.contains(j) && nodes[j as int].object_id
            != nodes[i].object_id,
    decreases found.len(),
{
    let now = other_bodies(nodes, i, found);
    if found.len() > 0 {
        let head = found.drop_last();
        let before = other_bodies(nodes, i, head);
        lemma_other_bodies(nodes, i, head, j);
        if found.contains(j) {
            let t = choose|t: int| 0 <= t < found.len() && found[t] == j;
            if t < head.len() {
                assert(head[t] == j);
            }
        }
        if head.contains(j) {
            let t = choose|t: int| 0 <= t < head.len() && head[t] == j;
            assert(found[t] == j);
        }
        assert(found[found.len() - 1] == found.last());
        if nodes[found.last() as int].object_id != nodes[i].object_id {
            if now.contains(j) {
                let t = choose|t: int| 0 <= t < now.len() && now[t] == j;
                if t < before.len() {
                    assert(before[t] == j);
                }
            }
            if before.contains(j) {
                let t = choose|t: int| 0 <= t < before.len() && before[t] == j;
                assert(now[t] == j);
            }
            if j == found.last() {
                assert(now[now.len() - 1] == j);
            }
        }
    }
}

/// Grid completeness: for a grid built from the nodes, the grid-accelerated
/// list of a node holds exactly those brute-force candidates whose cell is the
/// node's cell or touches it. The grid never drops a candidate from the 3x3
/// block and never adds a node that brute force would not list.
pub proof fn lemma_grid_structure_complete<S>(
    nodes: Seq<Node<S>>,
    grid: &Grid,
    layout: &GridLayout,
    i: int,
    j: usize,
)
    requires
        grid.built_from(nodes, layout),
        layout.node_cells@.len() == nodes.len(),
        nodes.len() <= usize::MAX,
        !grid.is_empty(),
        0 <= i < nodes.len(),
    ensures
        grid_row(nodes, grid, layout.node_cells@, i).contains(j) <==> simple_row(nodes, i).contains(
            j,
        ) && layout.adjacent(j as int, i),
{
    let raw = layout.node_cells@[i];
    lemma_candidates_below(nodes, i, nodes.len() as int, j);
    lemma_other_bodies(nodes, i, grid.neighbourhood(raw.0, raw.1), j);
    lemma_neighbourhood_complete(grid, nodes, layout, raw.0, raw.1, j);
}

/// Candidates are mutual: `j` is a brute-force candidate of `i` exactly when
/// `i` is one of `j`. Each pair of repelling nodes is seen from both sides.
pub proof fn lemma_simple_candidates_mutual<S>(nodes: Seq<Node<S>>, i: usize, j: usize)
    requires
        nodes.len() <= usize::MAX,
        i < nodes.len(),
        j < nodes.len(),
    ensures
        simple_row(nodes, i as int).contains(j) <==> simple_row(nodes, j as int).contains(i),
{
    lemma_candidates_below(nodes, i as int, nodes.len() as int, j);
    lemma_candidates_below(nodes, j as int, nodes.len() as int, i);
}

/// Candidates from the grid are mutual too.
pub proof fn lemma_grid_candidates_mutual<S>(
    nodes: Seq<Node<S>>,
    grid: &Grid,
    layout: &GridLayout,
    i: usize,
    j: usize,
)
    requires
        grid.built_from(nodes, layout),
        layout.node_cells@.len() == nodes.len(),
        nodes.len() <= usize::MAX,
        i < nodes.len(),
        j < nodes.len(),
    ensures
        grid_row(nodes, grid, layout.node_cells@, i as int).contains(j) <==> grid_row(
            nodes,
            grid,
            layout.node_cells@,
            j as int,
        ).contains(i),
{
    if grid.is_empty() {
        assert(grid.neighbourhood(layout.node_cells@[i as int].0, layout.node_cells@[i as int].1)
            =~= Seq::<usize>::empty());
        assert(grid.neighbourhood(layout.node_cells@[j as int].0, layout.node_cells@[j as int].1)
            =~= Seq::<usize>::empty());
    } else {
        lemma_grid_structure_complete(nodes, grid, layout, i as int, j);
        lemma_grid_structure_complete(nodes, grid, layout, j as int, i);
        lemma_simple_candidates_mutual(nodes, i, j);
    }
}

/// The brute-force list of a node is in increasing order, so it names no
/// candidate twice.
pub proof fn lemma_simple_row_sorted<S>(nodes: Seq<Node<S>>, i: int, n: int)
    requires
        0 <= n <= usize::MAX,
    ensures
        forall|a: int, b: int|
            0 <= a < b < candidates_below(nodes, i, n).len() ==> candidates_below(nodes, i, n)[a]
                < candidates_below(nodes, i, n)[b],
        forall|a: int|
            0 <= a < candidates_below(nodes, i, n).len() ==> candidates_below(nodes, i, n)[a] < n,
        candidates_below(nodes, i, n).no_duplicates(),
    decreases n,
{
    if n > 0 {
        lemma_simple_row_sorted(nodes, i, n - 1);
    }
}

/// Filtering by body keeps a list free of duplicates.
pub proof fn lemma_other_bodies_distinct<S>(nodes: Seq<Node<S>>, i: int, found: Seq<usize>)
    requires
        found.no_duplicates(),
    ensures
        other_bodies(nodes, i, found).no_duplicates(),
    decreases found.len(),
{
    if found.len() > 0 {
        let head = found.drop_last();
        let before = other_bodies(nodes, i, head);
        let now = other_bodies(nodes, i, found);
        assert(head.no_duplicates()) by {
            assert forall|a: int, b: int|
                0 <= a < head.len() && 0 <= b < head.len() && a != b implies head[a]
                != head[b] by {
                assert(head[a] == found[a] && head[b] == found[b]);
            }
        }
        lemma_other_bodies_distinct(nodes, i, head);
        if nodes[found.last() as int].object_id != nodes[i].object_id {
            lemma_other_bodies(nodes, i, head, found.last());
            if head.contains(found.last()) {
                let t = choose|t: int| 0 <= t < head.len() && head[t] == found.last();
                assert(found[t] == found[found.len() - 1]);
            }
            assert forall|a: int, b: int|
                0 <= a < now.len() && 0 <= b < now.len() && a != b implies now[a] != now[b] by {
                if a < before.len() && b < before.len() {
                    assert(before[a] != before[b]);
                } else if a < before.len() {
                    assert(before.contains(before[a]));
                } else {
                    assert(before.contains(before[b]));
                }
            }
        }
    }
}

/// For a grid built from the nodes, the grid-accelerated list of a node names
/// no candidate twice.
pub proof fn lemma_grid_row_distinct<S>(
    nodes: Seq<Node<S>>,
    grid: &Grid,
    layout: &GridLayout,
    i: int,
)
    requires
        grid.built_from(nodes, layout),
        layout.node_cells@.len() == nodes.len(),
        nodes.len() <= usize::MAX,
        0 <= i < nodes.len(),
    ensures
        grid_row(nodes, grid, layout.node_cells@, i).no_duplicates(),
{
    let raw = layout.node_cells@[i];
    lemma_neighbourhood_distinct(grid, nodes, layout, raw.0, raw.1);
    lemma_other_bodies_distinct(nodes, i, grid.neighbourhood(raw.0, raw.1));
}

/// The boundary nodes of body `id` among the first `n` nodes, in increasing
/// order.
pub open spec fn body_members<S>(nodes: Seq<Node<S>>, id: u32, n: int) -> Seq<usize>
    decreases n,
{
    if n <= 0 {
        Seq::empty()
    } else if nodes[n - 1].is_boundary && nodes[n - 1].object_id == id {
        body_members(nodes, id, n - 1).push((n - 1) as usize)
    } else {
        body_members(nodes, id, n - 1)
    }
}

/// Groups the boundary nodes by body: every body with a boundary node maps to
/// the list of its boundary nodes in increasing order, and no other body has
/// an entry.
pub fn calculate_objects_interactions_structure<S: Copy>(nodes: &Vec<Node<S>>) -> (out: HashMap<
    u32,
    Vec<usize>,
>)
    ensures
        forall|id: u32| #[trigger]
            out@.contains_key(id) <==> body_members(nodes@, id, nodes@.len() as int).len() > 0,
        forall|id: u32| #[trigger]
            out@.contains_key(id) ==> out@[id]@ == body_members(nodes@, id, nodes@.len() as int),
{
    broadcast use vstd::std_specs::hash::group_hash_axioms;

    let mut objects_interactions_structure: HashMap<u32, Vec<usize>> = HashMap::new();
    let mut index: usize = 0;
    while index < nodes.len()
        invariant
            index <= nodes@.len(),
            forall|id: u32| #[trigger]
                objects_interactions_structure@.contains_key(id) <==> body_members(
                    nodes@,
                    id,
                    index as int,
                ).len() > 0,
            forall|id: u32| #[trigger]
                objects_interactions_structure@.contains_key(id)
                    ==> objects_interactions_structure@[id]@ == body_members(
                    nodes@,
                    id,
                    index as int,
                ),
        decreases nodes@.len() - index,
    {
        if nodes[index].is_boundary {
            let id = nodes[index].object_id;
            let mut members = match objects_interactions_structure.remove(&id) {
                Some(found) => found,
                None => Vec::new(),
            };
            members.push(index);
            objects_interactions_structure.insert(id, members);
        }
        index += 1;
    }
    objects_interactions_structure
}

} // verus!
