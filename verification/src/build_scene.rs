use crate::adjacency::adjacency_row;
use crate::scene::Bond;
use crate::scene::ConnectionMap;
use crate::scene::bonds_wf;
use crate::scene::bonds_within;
use vstd::prelude::*;

verus! {

/// A node of a lattice with fewer neighbours than this lies on the surface of
/// its body.
pub const FULL_NEIGHBOURHOOD: usize = 4;

/// Number of bonds of `bonds` that end at node `i`.
pub open spec fn degree<P>(bonds: Seq<Bond<P>>, i: int) -> nat
    decreases bonds.len(),
{
    if bonds.len() == 0 {
        0
    } else if bonds.last().touches(i) {
        degree(bonds.drop_last(), i) + 1
    } else {
        degree(bonds.drop_last(), i)
    }
}

/// A node has as many bonds as its adjacency row has entries, and never more
/// than there are bonds.
pub proof fn lemma_degree<P>(bonds: Seq<Bond<P>>, i: int)
    ensures
        degree(bonds, i) == adjacency_row(bonds, i).len(),
        degree(bonds, i) <= bonds.len(),
    decreases bonds.len(),
{
    if bonds.len() > 0 {
        lemma_degree(bonds.drop_last(), i);
    }
}

/// Counts, for each of `node_count` nodes, the bonds that end at it.
pub fn count_neighbours<P: Copy>(connections_map: &ConnectionMap<P>, node_count: usize) -> (out:
    Vec<usize>)
    requires
        connections_map.wf(),
        bonds_within(connections_map.entries(), node_count as int),
    ensures
        out@.len() == node_count,
        forall|i: int|
            0 <= i < node_count ==> (#[trigger] out@[i]) == degree(connections_map.entries(), i),
{
    let bonds = connections_map.bonds();
    let mut counts: Vec<usize> = Vec::with_capacity(node_count);
    let mut i: usize = 0;
    while i < node_count
        invariant
            i <= node_count,
            counts@.len() == i,
            forall|k: int| 0 <= k < i ==> (#[trigger] counts@[k]) == 0,
        decreases node_count - i,
    {
        counts.push(0);
        i += 1;
    }
    let mut t: usize = 0;
    while t < bonds.len()
        invariant
            t <= bonds@.len(),
            bonds_wf(bonds@),
            bonds_within(bonds@, node_count as int),
            counts@.len() == node_count,
            forall|k: int|
                0 <= k < node_count ==> (#[trigger] counts@[k]) == degree(
                    bonds@.take(t as int),
                    k,
                ),
        decreases bonds@.len() - t,
    {
        let bond = bonds[t];
        let ghost before = counts@;
        proof {
            assert(bonds@[t as int].a < bonds@[t as int].b);
            assert(bonds@[t as int].b < node_count);
            assert(bonds@.take(t + 1).drop_last() =~= bonds@.take(t as int));
            lemma_degree(bonds@.take(t as int), bond.a as int);
            lemma_degree(bonds@.take(t as int), bond.b as int);
        }
        counts[bond.a] += 1;
        counts[bond.b] += 1;
        proof {
            assert forall|k: int| 0 <= k < node_count implies (#[trigger] counts@[k]) == degree(
                bonds@.take(t + 1),
                k,
            ) by {
                assert(before[k] == degree(bonds@.take(t as int), k));
            }
        }
        t += 1;
    }
    proof {
        assert(bonds@.take(bonds@.len() as int) =~= bonds@);
    }
    counts
}

/// The nodes among the first `n` with fewer than `FULL_NEIGHBOURHOOD`
/// neighbours, each index shifted by `offset`, in increasing order.
pub open spec fn sparse_nodes(neighbour_counts: Seq<usize>, offset: int, n: int) -> Seq<usize>
    decreases n,
{
    if n <= 0 {
        Seq::empty()
    } else if neighbour_counts[n - 1] < FULL_NEIGHBOURHOOD {
        sparse_nodes(neighbour_counts, offset, n - 1).push((n - 1 + offset) as usize)
    } else {
        sparse_nodes(neighbour_counts, offset, n - 1)
    }
}

/// Picks the surface nodes of a body from the number of close neighbours of
/// each of its nodes. `offset` is the index of the body's first node in the
/// scene.
pub fn get_boundary_nodes(neighbour_counts: &Vec<usize>, offset: usize) -> (out: Vec<usize>)
    requires
        neighbour_counts@.len() + offset <= usize::MAX,
    ensures
        out@ == sparse_nodes(neighbour_counts@, offset as int, neighbour_counts@.len() as int),
{
    let mut boundary_nodes: Vec<usize> = Vec::new();
    let mut i: usize = 0;
    while i < neighbour_counts.len()
        invariant
            i <= neighbour_counts@.len(),
            neighbour_counts@.len() + offset <= usize::MAX,
            boundary_nodes@ == sparse_nodes(neighbour_counts@, offset as int, i as int),
        decreases neighbour_counts@.len() - i,
    {
        if neighbour_counts[i] < FULL_NEIGHBOURHOOD {
            boundary_nodes.push(i + offset);
        }
        i += 1;
    }
    boundary_nodes
}

} // verus!
