use crate::node::Node;
use crate::scene::Bond;
use crate::scene::ConnectionMap;
use crate::scene::bonds_map;
use crate::scene::bonds_wf;
use crate::scene::bonds_within;
use crate::scene::has_bond;
use crate::scene::lemma_bonds_map;
use crate::scene::lemma_without_keys;
use crate::scene::lemma_without_keys_twice;
use crate::scene::lemma_without_map;
use crate::scene::ordered_pair;
use crate::scene::without_keys;
use vstd::prelude::*;

verus! {

/// The pairs named by `keys`, each with its smaller index first.
pub open spec fn key_set(keys: Seq<(usize, usize)>) -> Set<(usize, usize)> {
    Set::new(
        |k: (usize, usize)|
            exists|t: int| 0 <= t < keys.len() && ordered_pair((#[trigger] keys[t]).0, keys[t].1) == k,
    )
}

/// Whether some bond of `bonds` whose pair is in `keys` ends at node `i`.
pub open spec fn loses_bond<P>(bonds: Seq<Bond<P>>, keys: Set<(usize, usize)>, i: int) -> bool {
    exists|t: int|
        0 <= t < bonds.len() && keys.contains((#[trigger] bonds[t]).key()) && bonds[t].touches(i)
}

/// Whether some bond of `bonds` has its pair in `keys`.
pub open spec fn breaks_any<P>(bonds: Seq<Bond<P>>, keys: Set<(usize, usize)>) -> bool {
    exists|t: int| 0 <= t < bonds.len() && keys.contains((#[trigger] bonds[t]).key())
}

/// The nodes after the bonds in `keys` broke: a node that lost a bond is on
/// the boundary, every other node is as it was.
pub open spec fn exposed_nodes<S, P>(
    nodes: Seq<Node<S>>,
    bonds: Seq<Bond<P>>,
    keys: Set<(usize, usize)>,
) -> Seq<Node<S>> {
    Seq::new(
        nodes.len(),
        |i: int|
            if loses_bond(bonds, keys, i) {
                nodes[i].exposed()
            } else {
                nodes[i]
            },
    )
}

/// Breaks the bonds named in `connections_to_break`.
///
/// Each named pair that is bonded loses its bond and both of its nodes are
/// promoted to the boundary; a pair that is not bonded is skipped. A pair may
/// be given in either order. Returns whether any bond broke, in which case the
/// structures derived from the bond map and from the boundary flags are out
/// of date.
pub fn handle_connection_break<S: Copy, P: Copy>(
    nodes: &mut Vec<Node<S>>,
    connections: &mut ConnectionMap<P>,
    connections_to_break: &Vec<(usize, usize)>,
) -> (broke: bool)
    requires
        old(connections).wf(),
        bonds_within(old(connections).entries(), old(nodes)@.len() as int),
    ensures
        final(connections).wf(),
        bonds_within(final(connections).entries(), final(nodes)@.len() as int),
        final(connections).entries() == without_keys(
            old(connections).entries(),
            key_set(connections_to_break@),
        ),
        final(connections)@ == old(connections)@.remove_keys(key_set(connections_to_break@)),
        final(nodes)@ == exposed_nodes(
            old(nodes)@,
            old(connections).entries(),
            key_set(connections_to_break@),
        ),
        broke == breaks_any(old(connections).entries(), key_set(connections_to_break@)),
{
    let ghost nodes0 = nodes@;
    let ghost bonds0 = connections.entries();
    let ghost keys = connections_to_break@;
    let mut broke = false;
    let mut t: usize = 0;
    proof {
        lemma_without_keys(bonds0, key_set(keys.take(0)));
        assert(nodes@ =~= exposed_nodes(nodes0, bonds0, key_set(keys.take(0))));
    }
    while t < connections_to_break.len()
        invariant
            t <= keys.len(),
            keys == connections_to_break@,
            bonds_wf(bonds0),
            bonds_within(bonds0, nodes0.len() as int),
            connections.wf(),
            nodes@.len() == nodes0.len(),
            connections.entries() == without_keys(bonds0, key_set(keys.take(t as int))),
            nodes@ == exposed_nodes(nodes0, bonds0, key_set(keys.take(t as int))),
            broke == breaks_any(bonds0, key_set(keys.take(t as int))),
        decreases keys.len() - t,
    {
        let (a, b) = connections_to_break[t];
        let ghost k = ordered_pair(a, b);
        let ghost done = key_set(keys.take(t as int));
        let ghost next = key_set(keys.take(t + 1));
        let ghost current = connections.entries();
        let ghost nodes_before = nodes@;
        proof {
            lemma_key_set_step(keys, t as int);
            lemma_without_keys(bonds0, done);
            lemma_without_keys_twice(bonds0, done, set![k]);
            lemma_bonds_map(current);
        }
        let removed = connections.remove(a, b);
        if removed.is_some() {
            proof {
                let at = choose|at: int| 0 <= at < current.len() && (#[trigger] current[at]).key() == k;
                assert(bonds0.contains(current[at]));
                let origin = choose|o: int| 0 <= o < bonds0.len() && bonds0[o] == current[at];
                assert(bonds0[origin].a < bonds0[origin].b);
                assert(bonds0[origin].b < nodes0.len());
                assert(next.contains(bonds0[origin].key()));
            }
            nodes[a].is_boundary = true;
            nodes[b].is_boundary = true;
            broke = true;
        }
        proof {
            lemma_break_step(nodes0, bonds0, done, k);
            assert(nodes@ =~= exposed_nodes(nodes0, bonds0, next));
        }
        t += 1;
    }
    proof {
        assert(keys.take(keys.len() as int) =~= keys);
        lemma_without_keys(bonds0, key_set(keys));
        lemma_without_map(bonds0, key_set(keys));
    }
    broke
}

/// Bond-break monotonicity. After the bonds in `keys` broke, none of them is
/// in the map, both ends of each broken bond are on the boundary, and no node
/// left the boundary or changed otherwise. Breaking the same pairs again finds
/// nothing to break: the bonds and the nodes stay as they are.
pub proof fn lemma_break_is_final<S, P>(
    nodes: Seq<Node<S>>,
    bonds: Seq<Bond<P>>,
    keys: Set<(usize, usize)>,
)
    requires
        bonds_wf(bonds),
        bonds_within(bonds, nodes.len() as int),
    ensures
        forall|k: (usize, usize)|
            keys.contains(k) ==> !(#[trigger] bonds_map(without_keys(bonds, keys)).contains_key(k)),
        forall|t: int|
            0 <= t < bonds.len() && keys.contains((#[trigger] bonds[t]).key()) ==> exposed_nodes(
                nodes,
                bonds,
                keys,
            )[bonds[t].a as int].is_boundary && exposed_nodes(
                nodes,
                bonds,
                keys,
            )[bonds[t].b as int].is_boundary,
        forall|i: int|
            0 <= i < nodes.len() ==> {
                let after = #[trigger] exposed_nodes(nodes, bonds, keys)[i];
                &&& after.state == nodes[i].state
                &&& after.object_id == nodes[i].object_id
                &&& nodes[i].is_boundary ==> after.is_boundary
            },
        !breaks_any(without_keys(bonds, keys), keys),
        without_keys(without_keys(bonds, keys), keys) == without_keys(bonds, keys),
        exposed_nodes(exposed_nodes(nodes, bonds, keys), without_keys(bonds, keys), keys)
            == exposed_nodes(nodes, bonds, keys),
{
    let left = without_keys(bonds, keys);
    let after = exposed_nodes(nodes, bonds, keys);
    lemma_without_keys(bonds, keys);
    lemma_without_keys(left, keys);
    lemma_bonds_map(left);
    assert forall|k: (usize, usize)| keys.contains(k) implies !(#[trigger] bonds_map(
        left,
    ).contains_key(k)) by {
        if has_bond(left, k) {
            let x = choose|x: int| 0 <= x < left.len() && (#[trigger] left[x]).key() == k;
            assert(!keys.contains(left[x].key()));
        }
    }
    assert forall|t: int|
        0 <= t < bonds.len() && keys.contains((#[trigger] bonds[t]).key()) implies after[bonds[t].a as int].is_boundary
        && after[bonds[t].b as int].is_boundary by {
        assert(bonds[t].a < bonds[t].b && bonds[t].b < nodes.len());
        assert(bonds[t].touches(bonds[t].a as int) && bonds[t].touches(bonds[t].b as int));
        assert(loses_bond(bonds, keys, bonds[t].a as int));
        assert(loses_bond(bonds, keys, bonds[t].b as int));
    }
    assert forall|i: int| !loses_bond(left, keys, i) by {
        if loses_bond(left, keys, i) {
            let x = choose|x: int|
                0 <= x < left.len() && keys.contains((#[trigger] left[x]).key()) && left[x].touches(
                    i,
                );
            assert(!keys.contains(left[x].key()));
        }
    }
    if breaks_any(left, keys) {
        let x = choose|x: int| 0 <= x < left.len() && keys.contains((#[trigger] left[x]).key());
        assert(!keys.contains(left[x].key()));
    }
    assert(exposed_nodes(after, left, keys) =~= after);
}

/// A run that finds no bond to break leaves the bonds and the nodes as they
/// are.
pub proof fn lemma_nothing_breaks<S, P>(
    nodes: Seq<Node<S>>,
    bonds: Seq<Bond<P>>,
    keys: Set<(usize, usize)>,
)
    requires
        !breaks_any(bonds, keys),
    ensures
        without_keys(bonds, keys) == bonds,
        exposed_nodes(nodes, bonds, keys) == nodes,
{
    lemma_without_keys(bonds, keys);
    assert forall|i: int| !loses_bond(bonds, keys, i) by {
        if loses_bond(bonds, keys, i) {
            let t = choose|t: int|
                0 <= t < bonds.len() && keys.contains((#[trigger] bonds[t]).key())
                    && bonds[t].touches(i);
            assert(breaks_any(bonds, keys));
        }
    }
    assert(exposed_nodes(nodes, bonds, keys) =~= nodes);
}

/// Taking one more key into account adds its ordered pair to the key set.
pub proof fn lemma_key_set_step(keys: Seq<(usize, usize)>, t: int)
    requires
        0 <= t < keys.len(),
    ensures
        key_set(keys.take(t + 1)) == key_set(keys.take(t)).union(
            set![ordered_pair(keys[t].0, keys[t].1)],
        ),
{
    let before = keys.take(t);
    let after = keys.take(t + 1);
    let k = ordered_pair(keys[t].0, keys[t].1);
    assert forall|x: (usize, usize)| #[trigger]
        key_set(after).contains(x) <==> key_set(before).contains(x) || x == k by {
        if key_set(after).contains(x) {
            let i = choose|i: int|
                0 <= i < after.len() && ordered_pair((#[trigger] after[i]).0, after[i].1) == x;
            if i < t {
                assert(before[i] == after[i]);
            }
        }
        if key_set(before).contains(x) {
            let i = choose|i: int|
                0 <= i < before.len() && ordered_pair((#[trigger] before[i]).0, before[i].1) == x;
            assert(after[i] == before[i]);
        }
        if x == k {
            assert(after[t] == keys[t]);
        }
    }
    assert(key_set(after) =~= key_set(before).union(set![k]));
}

/// What one more broken pair changes: the nodes at the ends of its bond, if
/// the bond was still there, and nothing else.
pub proof fn lemma_break_step<S, P>(
    nodes: Seq<Node<S>>,
    bonds: Seq<Bond<P>>,
    done: Set<(usize, usize)>,
    k: (usize, usize),
)
    requires
        bonds_wf(bonds),
    ensures
        forall|i: int|
            loses_bond(bonds, done.union(set![k]), i) <==> loses_bond(bonds, done, i) || (has_bond(
                without_keys(bonds, done),
                k,
            ) && (k.0 == i || k.1 == i)),
        breaks_any(bonds, done.union(set![k])) <==> breaks_any(bonds, done) || has_bond(
            without_keys(bonds, done),
            k,
        ),
{
    let left = without_keys(bonds, done);
    let both = done.union(set![k]);
    lemma_without_keys(bonds, done);
    assert forall|i: int|
        loses_bond(bonds, both, i) <==> loses_bond(bonds, done, i) || (has_bond(left, k) && (k.0
            == i || k.1 == i)) by {
        if loses_bond(bonds, both, i) {
            let t = choose|t: int|
                0 <= t < bonds.len() && both.contains((#[trigger] bonds[t]).key())
                    && bonds[t].touches(i);
            if !done.contains(bonds[t].key()) {
                assert(left.contains(bonds[t]));
                let x = choose|x: int| 0 <= x < left.len() && left[x] == bonds[t];
                assert(left[x].key() == k);
            }
        }
        if loses_bond(bonds, done, i) {
            let t = choose|t: int|
                0 <= t < bonds.len() && done.contains((#[trigger] bonds[t]).key())
                    && bonds[t].touches(i);
            assert(both.contains(bonds[t].key()));
        }
        if has_bond(left, k) && (k.0 == i || k.1 == i) {
            let x = choose|x: int| 0 <= x < left.len() && (#[trigger] left[x]).key() == k;
            assert(bonds.contains(left[x]));
            let t = choose|t: int| 0 <= t < bonds.len() && bonds[t] == left[x];
            assert(both.contains(bonds[t].key()) && bonds[t].touches(i));
        }
    }
    if breaks_any(bonds, both) {
        let t = choose|t: int| 0 <= t < bonds.len() && both.contains((#[trigger] bonds[t]).key());
        if !done.contains(bonds[t].key()) {
            assert(left.contains(bonds[t]));
            let x = choose|x: int| 0 <= x < left.len() && left[x] == bonds[t];
            assert(left[x].key() == k);
        }
    }
    if breaks_any(bonds, done) {
        let t = choose|t: int| 0 <= t < bonds.len() && done.contains((#[trigger] bonds[t]).key());
        assert(both.contains(bonds[t].key()));
    }
    if has_bond(left, k) {
        let x = choose|x: int| 0 <= x < left.len() && (#[trigger] left[x]).key() == k;
        assert(bonds.contains(left[x]));
        let t = choose|t: int| 0 <= t < bonds.len() && bonds[t] == left[x];
        assert(both.contains(bonds[t].key()));
    }
}

} // verus!
