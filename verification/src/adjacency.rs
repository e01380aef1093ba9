use crate::node::Node;
use crate::scene::Bond;
use crate::scene::ConnectionMap;
use crate::scene::bonds_map;
use crate::scene::bonds_wf;
use crate::scene::bonds_within;
use crate::scene::has_bond;
use crate::scene::lemma_bonds_map;
use crate::scene::lemma_bonds_prefix;
use crate::scene::ordered_pair;
use vstd::prelude::*;

verus! {

/// The neighbours of node `i`: one entry for each bond that ends at `i`, in
/// the order of the bonds, holding the node at the other end and the bond's
/// parameters.
pub open spec fn adjacency_row<P>(bonds: Seq<Bond<P>>, i: int) -> Seq<(usize, P)>
    decreases bonds.len(),
{
    if bonds.len() == 0 {
        Seq::empty()
    } else if bonds.last().a == i {
        adjacency_row(bonds.drop_last(), i).push((bonds.last().b, bonds.last().params))
    } else if bonds.last().b == i {
        adjacency_row(bonds.drop_last(), i).push((bonds.last().a, bonds.last().params))
    } else {
        adjacency_row(bonds.drop_last(), i)
    }
}

/// Whether `structure` is the adjacency of `bonds` over `n` nodes.
pub open spec fn is_adjacency_of<P>(
    structure: Seq<Vec<(usize, P)>>,
    bonds: Seq<Bond<P>>,
    n: int,
) -> bool {
    &&& structure.len() == n
    &&& forall|i: int| 0 <= i < n ==> (#[trigger] structure[i])@ == adjacency_row(bonds, i)
}

/// Builds the per-node neighbour lists by mirroring each bond into the lists
/// of both of its ends.
pub fn calculate_connections_structure<S: Copy, P: Copy>(
    connections_map: &ConnectionMap<P>,
    nodes: &Vec<Node<S>>,
) -> (out: Vec<Vec<(usize, P)>>)
    requires
        connections_map.wf(),
        bonds_within(connections_map.entries(), nodes@.len() as int),
    ensures
        is_adjacency_of(out@, connections_map.entries(), nodes@.len() as int),
        lists_closed(out@),
{
    let n = nodes.len();
    let bonds = connections_map.bonds();
    let mut structure: Vec<Vec<(usize, P)>> = Vec::with_capacity(n);
    let mut i: usize = 0;
    while i < n
        invariant
            i <= n,
            structure@.len() == i,
            forall|k: int| 0 <= k < i ==> (#[trigger] structure@[k])@.len() == 0,
        decreases n - i,
    {
        structure.push(Vec::new());
        i += 1;
    }
    let mut t: usize = 0;
    while t < bonds.len()
        invariant
            t <= bonds@.len(),
            n == nodes@.len(),
            bonds_wf(bonds@),
            bonds_within(bonds@, n as int),
            structure@.len() == n,
            forall|k: int|
                0 <= k < n ==> (#[trigger] structure@[k])@ == adjacency_row(
                    bonds@.take(t as int),
                    k,
                ),
        decreases bonds@.len() - t,
    {
        let bond = bonds[t];
        let ghost before = structure@;
        proof {
            assert(bonds@[t as int].a < bonds@[t as int].b);
            assert(bonds@[t as int].b < n);
            assert(bonds@.take(t + 1).drop_last() =~= bonds@.take(t as int));
        }
        structure[bond.a].push((bond.b, bond.params));
        structure[bond.b].push((bond.a, bond.params));
        proof {
            assert forall|k: int| 0 <= k < n implies (#[trigger] structure@[k])@ == adjacency_row(
                bonds@.take(t + 1),
                k,
            ) by {
                assert(before[k]@ == adjacency_row(bonds@.take(t as int), k));
            }
        }
        t += 1;
    }
    proof {
        assert(bonds@.take(bonds@.len() as int) =~= bonds@);
        lemma_adjacency_closed(structure@, bonds@, n as int);
    }
    structure
}

/// Every entry of the adjacency lists names a node that has a list.
pub open spec fn lists_closed<P>(structure: Seq<Vec<(usize, P)>>) -> bool {
    forall|i: int, k: int|
        0 <= i < structure.len() && 0 <= k < structure[i]@.len() ==> (
        #[trigger] structure[i]@[k]).0 < structure.len()
}

/// Checks that every entry of the adjacency lists names a node that has a
/// list.
pub fn lists_are_closed<P: Copy>(connections_structure: &Vec<Vec<(usize, P)>>) -> (out: bool)
    ensures
        out == lists_closed(connections_structure@),
{
    let n = connections_structure.len();
    let mut i: usize = 0;
    while i < n
        invariant
            i <= n,
            n == connections_structure@.len(),
            forall|a: int, k: int|
                0 <= a < i && 0 <= k < connections_structure@[a]@.len() ==> (
                #[trigger] connections_structure@[a]@[k]).0 < n,
        decreases n - i,
    {
        let row = &connections_structure[i];
        let mut k: usize = 0;
        while k < row.len()
            invariant
                k <= row@.len(),
                i < n,
                n == connections_structure@.len(),
                row@ == connections_structure@[i as int]@,
                forall|t: int| 0 <= t < k ==> (#[trigger] row@[t]).0 < n,
            decreases row@.len() - k,
        {
            if row[k].0 >= n {
                proof {
                    assert(connections_structure@[i as int]@[k as int].0 >= n);
                }
                return false;
            }
            k += 1;
        }
        i += 1;
    }
    true
}

/// Adjacency lists built from bonds that stay within the nodes are closed.
pub proof fn lemma_adjacency_closed<P>(structure: Seq<Vec<(usize, P)>>, bonds: Seq<Bond<P>>, n: int)
    requires
        is_adjacency_of(structure, bonds, n),
        bonds_wf(bonds),
        bonds_within(bonds, n),
    ensures
        lists_closed(structure),
{
    assert forall|i: int, k: int|
        0 <= i < structure.len() && 0 <= k < structure[i]@.len() implies (
    #[trigger] structure[i]@[k]).0 < structure.len() by {
        lemma_adjacency_row_within(bonds, i, n);
        assert(structure[i]@ == adjacency_row(bonds, i));
    }
}

/// Every neighbour in an adjacency row is a node below `n` if the bonds stay
/// within the first `n` nodes.
pub proof fn lemma_adjacency_row_within<P>(bonds: Seq<Bond<P>>, i: int, n: int)
    requires
        bonds_wf(bonds),
        bonds_within(bonds, n),
    ensures
        forall|k: int|
            0 <= k < adjacency_row(bonds, i).len() ==> (#[trigger] adjacency_row(bonds, i)[k]).0 < n,
    decreases bonds.len(),
{
    if bonds.len() > 0 {
        let head = bonds.drop_last();
        lemma_bonds_prefix(bonds);
        lemma_adjacency_row_within(head, i, n);
        let row = adjacency_row(bonds, i);
        let rest = adjacency_row(head, i);
        let last = bonds[bonds.len() - 1];
        assert(last.a < last.b && last.b < n);
        assert forall|k: int| 0 <= k < row.len() implies (#[trigger] row[k]).0 < n by {
            if k < rest.len() {
                assert(row[k] == rest[k]);
            }
        }
    }
}

/// Mirroring: node `j` is listed with parameters `p` among the neighbours of
/// `i` exactly when the bond map links the two with those parameters. So `j`
/// is a neighbour of `i` exactly when `i` is a neighbour of `j`.
pub proof fn lemma_adjacency_mirrors_bonds<P>(bonds: Seq<Bond<P>>, i: usize, j: usize, p: P)
    requires
        bonds_wf(bonds),
    ensures
        adjacency_row(bonds, i as int).contains((j, p)) <==> i != j && bonds_map(
            bonds,
        ).contains_pair(ordered_pair(i, j), p),
        adjacency_row(bonds, i as int).contains((j, p)) <==> adjacency_row(
            bonds,
            j as int,
        ).contains((i, p)),
{
    lemma_adjacency_row_contains(bonds, i, j, p);
    lemma_adjacency_row_contains(bonds, j, i, p);
    lemma_bonds_map(bonds);
    let k = ordered_pair(i, j);
    assert(k == ordered_pair(j, i));
    if has_bond(bonds, k) {
        let t = choose|t: int| 0 <= t < bonds.len() && (#[trigger] bonds[t]).key() == k;
        assert(bonds_map(bonds)[bonds[t].key()] == bonds[t].params);
    }
    if exists|t: int| 0 <= t < bonds.len() && (#[trigger] bonds[t]).key() == k && bonds[t].params == p {
        let t = choose|t: int|
            0 <= t < bonds.len() && (#[trigger] bonds[t]).key() == k && bonds[t].params == p;
        assert(bonds_map(bonds)[bonds[t].key()] == bonds[t].params);
    }
}

/// No neighbour is listed twice: a node has one entry for each node that it
/// is bonded to.
pub proof fn lemma_adjacency_row_distinct<P>(bonds: Seq<Bond<P>>, i: usize)
    requires
        bonds_wf(bonds),
    ensures
        forall|a: int, b: int|
            0 <= a < b < adjacency_row(bonds, i as int).len() ==> adjacency_row(
                bonds,
                i as int,
            )[a].0 != adjacency_row(bonds, i as int)[b].0,
    decreases bonds.len(),
{
    if bonds.len() > 0 {
        let head = bonds.drop_last();
        let last = bonds[bonds.len() - 1];
        let row = adjacency_row(bonds, i as int);
        let rest = adjacency_row(head, i as int);
        lemma_bonds_prefix(bonds);
        lemma_adjacency_row_distinct(head, i);
        assert(last.a < last.b);
        if last.a == i || last.b == i {
            let other = if last.a == i {
                last.b
            } else {
                last.a
            };
            assert(last.key() == ordered_pair(i, other));
            assert forall|a: int| 0 <= a < rest.len() implies rest[a].0 != other by {
                if rest[a].0 == other {
                    assert(rest.contains((other, rest[a].1)));
                    lemma_adjacency_row_contains(head, i, other, rest[a].1);
                    let t = choose|t: int|
                        0 <= t < head.len() && (#[trigger] head[t]).key() == ordered_pair(i, other)
                            && head[t].params == rest[a].1;
                    assert(bonds[t] == head[t]);
                    assert(bonds[t].key() != bonds[bonds.len() - 1].key());
                }
            }
            assert forall|a: int, b: int| 0 <= a < b < row.len() implies row[a].0 != row[b].0 by {
                if b < rest.len() {
                    assert(row[a] == rest[a] && row[b] == rest[b]);
                } else {
                    assert(row[a] == rest[a]);
                }
            }
        }
    }
}

/// An entry of an adjacency row comes from a bond between the two nodes.
pub proof fn lemma_adjacency_row_contains<P>(bonds: Seq<Bond<P>>, i: usize, j: usize, p: P)
    requires
        bonds_wf(bonds),
    ensures
        adjacency_row(bonds, i as int).contains((j, p)) <==> i != j && exists|t: int|
            0 <= t < bonds.len() && (#[trigger] bonds[t]).key() == ordered_pair(i, j)
                && bonds[t].params == p,
    decreases bonds.len(),
{
    let row = adjacency_row(bonds, i as int);
    let k = ordered_pair(i, j);
    if bonds.len() > 0 {
        let head = bonds.drop_last();
        let last = bonds.last();
        let rest = adjacency_row(head, i as int);
        lemma_bonds_prefix(bonds);
        lemma_adjacency_row_contains(head, i, j, p);
        assert(bonds[bonds.len() - 1] == last);
        assert(last.a < last.b);
        let in_head = exists|t: int|
            0 <= t < head.len() && (#[trigger] head[t]).key() == k && head[t].params == p;
        let in_all = exists|t: int|
            0 <= t < bonds.len() && (#[trigger] bonds[t]).key() == k && bonds[t].params == p;
        if in_head {
            let t = choose|t: int|
                0 <= t < head.len() && (#[trigger] head[t]).key() == k && head[t].params == p;
            assert(bonds[t] == head[t]);
        }
        if in_all && !(last.key() == k && last.params == p) {
            let t = choose|t: int|
                0 <= t < bonds.len() && (#[trigger] bonds[t]).key() == k && bonds[t].params == p;
            assert(head[t] == bonds[t]);
        }
        let hit = last.key() == k && last.params == p && i != j;
        if last.a == i || last.b == i {
            let other = if last.a == i {
                last.b
            } else {
                last.a
            };
            assert(row == rest.push((other, last.params)));
            if row.contains((j, p)) {
                let x = choose|x: int| 0 <= x < row.len() && row[x] == (j, p);
                if x < rest.len() {
                    assert(rest[x] == (j, p));
                    assert(rest.contains((j, p)));
                } else {
                    assert(hit);
                }
            }
            if rest.contains((j, p)) {
                let x = choose|x: int| 0 <= x < rest.len() && rest[x] == (j, p);
                assert(row[x] == (j, p));
            }
            if hit {
                assert(row[row.len() - 1] == (j, p));
            }
        } else {
            assert(!hit);
        }
    }
}

} // verus!
