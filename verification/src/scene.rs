use crate::node::Node;
use vstd::prelude::*;

verus! {

/// An elastic link between two nodes, stored with the smaller index first.
#[derive(Clone, Copy, Debug, PartialEq)]
pub struct Bond<P> {
    pub a: usize,
    pub b: usize,
    /// Equilibrium distance and strength of the bond's potential.
    pub params: P,
}

impl<P> Bond<P> {
    /// The pair of node indices that identifies the bond.
    pub open spec fn key(self) -> (usize, usize) {
        (self.a, self.b)
    }

    /// Whether the bond ends at node `i`.
    pub open spec fn touches(self, i: int) -> bool {
        self.a == i || self.b == i
    }
}

/// The pair `{a, b}` with the smaller index first.
pub open spec fn ordered_pair(a: usize, b: usize) -> (usize, usize) {
    if a <= b {
        (a, b)
    } else {
        (b, a)
    }
}

/// Every bond has its smaller index first and no pair occurs twice.
pub open spec fn bonds_wf<P>(s: Seq<Bond<P>>) -> bool {
    &&& forall|i: int| 0 <= i < s.len() ==> (#[trigger] s[i]).a < s[i].b
    &&& forall|i: int, j: int|
        0 <= i < j < s.len() ==> (#[trigger] s[i]).key() != (#[trigger] s[j]).key()
}

/// Whether some bond of `s` links the pair `k`.
pub open spec fn has_bond<P>(s: Seq<Bond<P>>, k: (usize, usize)) -> bool {
    exists|i: int| 0 <= i < s.len() && (#[trigger] s[i]).key() == k
}

/// A position in `s` at which the pair `k` is linked, if there is one.
pub open spec fn bond_index<P>(s: Seq<Bond<P>>, k: (usize, usize)) -> int {
    choose|i: int| 0 <= i < s.len() && (#[trigger] s[i]).key() == k
}

/// The bonds of `s` as a map from node pair to parameters.
pub open spec fn bonds_map<P>(s: Seq<Bond<P>>) -> Map<(usize, usize), P> {
    Map::new(|k: (usize, usize)| has_bond(s, k), |k: (usize, usize)| s[bond_index(s, k)].params)
}

/// The bonds of `s` whose pair is not in `keys`, in their old order.
pub open spec fn without_keys<P>(s: Seq<Bond<P>>, keys: Set<(usize, usize)>) -> Seq<Bond<P>>
    decreases s.len(),
{
    if s.len() == 0 {
        Seq::empty()
    } else if keys.contains(s.last().key()) {
        without_keys(s.drop_last(), keys)
    } else {
        without_keys(s.drop_last(), keys).push(s.last())
    }
}

/// Every bond of `s` ends at nodes below `n`.
pub open spec fn bonds_within<P>(s: Seq<Bond<P>>, n: int) -> bool {
    forall|i: int| 0 <= i < s.len() ==> (#[trigger] s[i]).b < n
}

/// A bond list without its last bond is still well formed and still within
/// the nodes.
pub proof fn lemma_bonds_prefix<P>(s: Seq<Bond<P>>)
    requires
        s.len() > 0,
    ensures
        bonds_wf(s) ==> bonds_wf(s.drop_last()),
        forall|n: int| bonds_within(s, n) ==> #[trigger] bonds_within(s.drop_last(), n),
{
    let head = s.drop_last();
    if bonds_wf(s) {
        assert forall|i: int| 0 <= i < head.len() implies (#[trigger] head[i]).a < head[i].b by {
            assert(head[i] == s[i]);
        }
        assert forall|i: int, j: int| 0 <= i < j < head.len() implies (#[trigger] head[i]).key()
            != (#[trigger] head[j]).key() by {
            assert(head[i] == s[i] && head[j] == s[j]);
        }
    }
    assert forall|n: int| bonds_within(s, n) implies #[trigger] bonds_within(head, n) by {
        assert forall|i: int| 0 <= i < head.len() implies (#[trigger] head[i]).b < n by {
            assert(head[i] == s[i]);
        }
    }
}

/// What is left after `without_keys`: a bond survives exactly when its pair is
/// not among the keys, survivors keep their order and stay well formed.
pub proof fn lemma_without_keys<P>(s: Seq<Bond<P>>, keys: Set<(usize, usize)>)
    ensures
        without_keys(s, keys).len() <= s.len(),
        forall|i: int|
            0 <= i < without_keys(s, keys).len() ==> s.contains(
                #[trigger] without_keys(s, keys)[i],
            ) && !keys.contains(without_keys(s, keys)[i].key()),
        forall|i: int|
            0 <= i < s.len() && !keys.contains((#[trigger] s[i]).key()) ==> without_keys(
                s,
                keys,
            ).contains(s[i]),
        bonds_wf(s) ==> bonds_wf(without_keys(s, keys)),
        forall|n: int| bonds_within(s, n) ==> #[trigger] bonds_within(without_keys(s, keys), n),
        (forall|i: int| 0 <= i < s.len() ==> !keys.contains((#[trigger] s[i]).key()))
            ==> without_keys(s, keys) == s,
    decreases s.len(),
{
    let r = without_keys(s, keys);
    if s.len() > 0 {
        let head = s.drop_last();
        let rest = without_keys(head, keys);
        lemma_without_keys(head, keys);
        assert forall|i: int| 0 <= i < r.len() implies s.contains(#[trigger] r[i])
            && !keys.contains(r[i].key()) by {
            if i < rest.len() {
                assert(head.contains(rest[i]));
                let t = choose|t: int| 0 <= t < head.len() && head[t] == rest[i];
                assert(s[t] == rest[i]);
            } else {
                assert(r[i] == s.last());
                assert(s[s.len() - 1] == s.last());
            }
        }
        assert forall|i: int|
            0 <= i < s.len() && !keys.contains((#[trigger] s[i]).key()) implies r.contains(
            s[i],
        ) by {
            if i < head.len() {
                assert(head[i] == s[i]);
                assert(rest.contains(head[i]));
                let t = choose|t: int| 0 <= t < rest.len() && rest[t] == head[i];
                assert(r[t] == s[i]);
            } else {
                assert(r[r.len() - 1] == s[i]);
            }
        }
        if bonds_wf(s) {
            lemma_bonds_prefix(s);
            if !keys.contains(s.last().key()) {
                assert forall|i: int, j: int| 0 <= i < j < r.len() implies (#[trigger] r[i]).key()
                    != (#[trigger] r[j]).key() by {
                    if j == r.len() - 1 {
                        assert(head.contains(rest[i]));
                        let t = choose|t: int| 0 <= t < head.len() && head[t] == rest[i];
                        assert(s[t].key() != s[s.len() - 1].key());
                    } else {
                        assert(rest[i].key() != rest[j].key());
                    }
                }
                assert forall|i: int| 0 <= i < r.len() implies (#[trigger] r[i]).a < r[i].b by {
                    if i == r.len() - 1 {
                        assert(s[s.len() - 1].a < s[s.len() - 1].b);
                    } else {
                        assert(rest[i].a < rest[i].b);
                    }
                }
            }
        }
        assert forall|n: int| bonds_within(s, n) implies #[trigger] bonds_within(r, n) by {
            assert forall|i: int| 0 <= i < r.len() implies (#[trigger] r[i]).b < n by {
                assert(s.contains(r[i]));
                let t = choose|t: int| 0 <= t < s.len() && s[t] == r[i];
                assert(s[t].b < n);
            }
        }
        if forall|i: int| 0 <= i < s.len() ==> !keys.contains((#[trigger] s[i]).key()) {
            assert forall|i: int| 0 <= i < head.len() implies !keys.contains(
                (#[trigger] head[i]).key(),
            ) by {
                assert(head[i] == s[i]);
            }
            assert(!keys.contains(s[s.len() - 1].key()));
            assert(r =~= s);
        }
    } else {
        assert(r =~= s);
    }
}

/// Removing the bond at position `at` is the same as dropping its pair.
pub proof fn lemma_remove_is_without<P>(s: Seq<Bond<P>>, at: int)
    requires
        bonds_wf(s),
        0 <= at < s.len(),
    ensures
        s.remove(at) == without_keys(s, set![s[at].key()]),
    decreases s.len(),
{
    let keys = set![s[at].key()];
    let head = s.drop_last();
    if at == s.len() - 1 {
        assert forall|i: int| 0 <= i < head.len() implies !keys.contains(
            (#[trigger] head[i]).key(),
        ) by {
            assert(head[i] == s[i]);
            assert(s[i].key() != s[at].key());
        }
        lemma_without_keys(head, keys);
        assert(s.remove(at) =~= head);
    } else {
        lemma_bonds_prefix(s);
        assert(head[at] == s[at]);
        lemma_remove_is_without(head, at);
        assert(s[at].key() != s[s.len() - 1].key());
        assert(s.remove(at) =~= head.remove(at).push(s.last()));
    }
}

/// Dropping one set of pairs and then another drops their union.
pub proof fn lemma_without_keys_twice<P>(
    s: Seq<Bond<P>>,
    first: Set<(usize, usize)>,
    second: Set<(usize, usize)>,
)
    ensures
        without_keys(without_keys(s, first), second) == without_keys(s, first.union(second)),
    decreases s.len(),
{
    if s.len() > 0 {
        lemma_without_keys_twice(s.drop_last(), first, second);
        if !first.contains(s.last().key()) {
            let inner = without_keys(s.drop_last(), first);
            assert(inner.push(s.last()).drop_last() =~= inner);
        }
    }
}

/// The map of a well-formed bond list holds each bond under its pair.
pub proof fn lemma_bonds_map<P>(s: Seq<Bond<P>>)
    requires
        bonds_wf(s),
    ensures
        forall|i: int|
            0 <= i < s.len() ==> bonds_map(s).contains_key((#[trigger] s[i]).key()) && bonds_map(
                s,
            )[s[i].key()] == s[i].params,
        forall|k: (usize, usize)| #[trigger] bonds_map(s).contains_key(k) <==> has_bond(s, k),
{
    assert forall|i: int| 0 <= i < s.len() implies bonds_map(s).contains_key(
        (#[trigger] s[i]).key(),
    ) && bonds_map(s)[s[i].key()] == s[i].params by {
        let k = s[i].key();
        assert(has_bond(s, k));
        let j = bond_index(s, k);
        if i < j {
            assert(s[i].key() != s[j].key());
        } else if j < i {
            assert(s[j].key() != s[i].key());
        }
    }
}

/// The bond map of a scene: at most one bond for each unordered pair of
/// distinct nodes. Bonds keep the order in which they were inserted.
#[derive(Debug)]
pub struct ConnectionMap<P> {
    bonds: Vec<Bond<P>>,
}

impl<P: Copy> ConnectionMap<P> {
    /// The bonds in insertion order.
    pub closed spec fn entries(&self) -> Seq<Bond<P>> {
        self.bonds@
    }

    /// The invariant of the map; every operation keeps it.
    pub open spec fn wf(&self) -> bool {
        bonds_wf(self.entries())
    }

    /// The map from node pair to bond parameters.
    pub open spec fn view(&self) -> Map<(usize, usize), P> {
        bonds_map(self.entries())
    }

    /// An empty bond map.
    pub fn new() -> (out: Self)
        ensures
            out.wf(),
            out.entries() == Seq::<Bond<P>>::empty(),
    {
        ConnectionMap { bonds: Vec::new() }
    }

    /// Number of bonds.
    pub fn len(&self) -> (out: usize)
        ensures
            out == self.entries().len(),
    {
        self.bonds.len()
    }

    /// The bonds in insertion order.
    pub fn bonds(&self) -> (out: &Vec<Bond<P>>)
        ensures
            out@ == self.entries(),
    {
        &self.bonds
    }

    /// Position of the bond between `a` and `b`, in either order.
    fn position(&self, a: usize, b: usize) -> (out: Option<usize>)
        ensures
            match out {
                Some(at) => at < self.entries().len() && self.entries()[at as int].key()
                    == ordered_pair(a, b),
                None => !has_bond(self.entries(), ordered_pair(a, b)),
            },
    {
        let (lo, hi) = if a <= b {
            (a, b)
        } else {
            (b, a)
        };
        let mut i: usize = 0;
        while i < self.bonds.len()
            invariant
                i <= self.bonds@.len(),
                (lo, hi) == ordered_pair(a, b),
                forall|t: int| 0 <= t < i ==> (#[trigger] self.bonds@[t]).key() != (lo, hi),
            decreases self.bonds@.len() - i,
        {
            if self.bonds[i].a == lo && self.bonds[i].b == hi {
                return Some(i);
            }
            i += 1;
        }
        None
    }

    /// The parameters of the bond between `a` and `b`, in either order.
    pub fn get(&self, a: usize, b: usize) -> (out: Option<P>)
        requires
            self.wf(),
        ensures
            out == if self@.contains_key(ordered_pair(a, b)) {
                Some(self@[ordered_pair(a, b)])
            } else {
                None
            },
    {
        proof {
            lemma_bonds_map(self.entries());
        }
        match self.position(a, b) {
            Some(at) => Some(self.bonds[at].params),
            None => None,
        }
    }

    /// Whether `a` and `b` are bonded, in either order.
    pub fn contains_key(&self, a: usize, b: usize) -> (out: bool)
        requires
            self.wf(),
        ensures
            out == self@.contains_key(ordered_pair(a, b)),
    {
        proof {
            lemma_bonds_map(self.entries());
        }
        self.position(a, b).is_some()
    }

    /// Bonds `a` and `b` unless they are the same node or already bonded.
    ///
    /// Returns whether a bond was added. An existing bond keeps its
    /// parameters.
    pub fn insert(&mut self, a: usize, b: usize, params: P) -> (added: bool)
        requires
            old(self).wf(),
        ensures
            final(self).wf(),
            added == (a != b && !old(self)@.contains_key(ordered_pair(a, b))),
            added ==> final(self).entries() == old(self).entries().push(
                Bond { a: ordered_pair(a, b).0, b: ordered_pair(a, b).1, params },
            ),
            added ==> final(self)@ == old(self)@.insert(ordered_pair(a, b), params),
            !added ==> final(self).entries() == old(self).entries(),
    {
        proof {
            lemma_bonds_map(self.entries());
        }
        if a == b {
            return false;
        }
        match self.position(a, b) {
            Some(_) => false,
            None => {
                let (lo, hi) = if a < b {
                    (a, b)
                } else {
                    (b, a)
                };
                let ghost before = self.bonds@;
                let bond = Bond { a: lo, b: hi, params };
                self.bonds.push(bond);
                proof {
                    let after = self.bonds@;
                    assert(bonds_wf(after)) by {
                        assert forall|i: int, j: int| 0 <= i < j < after.len() implies (
                        #[trigger] after[i]).key() != (#[trigger] after[j]).key() by {
                            if j == before.len() {
                                assert(before[i].key() != (lo, hi));
                            } else {
                                assert(before[i].key() != before[j].key());
                            }
                        }
                    }
                    lemma_push_map(before, bond);
                }
                true
            },
        }
    }

    /// Removes the bond between `a` and `b`, in either order, and returns its
    /// parameters. The other bonds keep their order.
    pub fn remove(&mut self, a: usize, b: usize) -> (out: Option<P>)
        requires
            old(self).wf(),
        ensures
            final(self).wf(),
            out == if old(self)@.contains_key(ordered_pair(a, b)) {
                Some(old(self)@[ordered_pair(a, b)])
            } else {
                None
            },
            final(self).entries() == without_keys(old(self).entries(), set![ordered_pair(a, b)]),
            final(self)@ == old(self)@.remove(ordered_pair(a, b)),
    {
        let ghost before = self.bonds@;
        let ghost k = ordered_pair(a, b);
        proof {
            lemma_bonds_map(before);
            lemma_without_keys(before, set![k]);
            lemma_without_map(before, set![k]);
            assert(bonds_map(before).remove_keys(set![k]) =~= bonds_map(before).remove(k));
        }
        match self.position(a, b) {
            Some(at) => {
                let bond = self.bonds.remove(at);
                proof {
                    lemma_remove_is_without(before, at as int);
                }
                Some(bond.params)
            },
            None => None,
        }
    }

    /// A copy of the map.
    pub fn snapshot(&self) -> (out: Self)
        ensures
            out.entries() == self.entries(),
    {
        let mut bonds: Vec<Bond<P>> = Vec::with_capacity(self.bonds.len());
        let mut i: usize = 0;
        while i < self.bonds.len()
            invariant
                i <= self.bonds@.len(),
                bonds@ == self.bonds@.take(i as int),
            decreases self.bonds@.len() - i,
        {
            bonds.push(self.bonds[i]);
            proof {
                assert(self.bonds@.take(i + 1) =~= self.bonds@.take(i as int).push(
                    self.bonds@[i as int],
                ));
            }
            i += 1;
        }
        proof {
            assert(self.bonds@.take(self.bonds@.len() as int) =~= self.bonds@);
        }
        ConnectionMap { bonds }
    }
}

/// Appending a bond for a new pair adds one entry to the map.
pub proof fn lemma_push_map<P>(s: Seq<Bond<P>>, bond: Bond<P>)
    requires
        bonds_wf(s),
        bonds_wf(s.push(bond)),
    ensures
        bonds_map(s.push(bond)) == bonds_map(s).insert(bond.key(), bond.params),
{
    let t = s.push(bond);
    lemma_bonds_map(s);
    lemma_bonds_map(t);
    assert forall|k: (usize, usize)| #[trigger]
        bonds_map(t).contains_key(k) <==> bonds_map(s).insert(
            bond.key(),
            bond.params,
        ).contains_key(k) by {
        if has_bond(t, k) {
            let i = bond_index(t, k);
            if i < s.len() {
                assert(s[i].key() == k);
            }
        }
        if has_bond(s, k) {
            let i = bond_index(s, k);
            assert(t[i].key() == k);
        }
        if k == bond.key() {
            assert(t[s.len() as int].key() == k);
        }
    }
    assert forall|k: (usize, usize)| #[trigger] bonds_map(t).contains_key(k) implies bonds_map(
        t,
    )[k] == bonds_map(s).insert(bond.key(), bond.params)[k] by {
        let i = bond_index(t, k);
        assert(bonds_map(t)[t[i].key()] == t[i].params);
        if i < s.len() {
            assert(s[i] == t[i]);
            assert(bonds_map(s)[s[i].key()] == s[i].params);
            assert(t[i].key() != t[s.len() as int].key());
        }
    }
    assert(bonds_map(t) =~= bonds_map(s).insert(bond.key(), bond.params));
}

/// Dropping a set of pairs from the bond list drops them from the map.
pub proof fn lemma_without_map<P>(s: Seq<Bond<P>>, keys: Set<(usize, usize)>)
    requires
        bonds_wf(s),
    ensures
        bonds_map(without_keys(s, keys)) == bonds_map(s).remove_keys(keys),
{
    let r = without_keys(s, keys);
    lemma_without_keys(s, keys);
    lemma_bonds_map(s);
    lemma_bonds_map(r);
    let target = bonds_map(s).remove_keys(keys);
    assert forall|k: (usize, usize)| #[trigger]
        bonds_map(r).contains_key(k) <==> target.contains_key(k) by {
        if has_bond(r, k) {
            let i = bond_index(r, k);
            assert(s.contains(r[i]));
            let t = choose|t: int| 0 <= t < s.len() && s[t] == r[i];
            assert(s[t].key() == k);
        }
        if has_bond(s, k) && !keys.contains(k) {
            let i = bond_index(s, k);
            assert(r.contains(s[i]));
            let t = choose|t: int| 0 <= t < r.len() && r[t] == s[i];
            assert(r[t].key() == k);
        }
    }
    assert forall|k: (usize, usize)| #[trigger] bonds_map(r).contains_key(k) implies bonds_map(
        r,
    )[k] == target[k] by {
        let i = bond_index(r, k);
        assert(bonds_map(r)[r[i].key()] == r[i].params);
        assert(s.contains(r[i]));
        let t = choose|t: int| 0 <= t < s.len() && s[t] == r[i];
        assert(bonds_map(s)[s[t].key()] == s[t].params);
    }
    assert(bonds_map(r) =~= target);
}

/// The aggregate root of a simulation: the nodes, the bonds between them and
/// the parameters of the repulsion between bodies.
///
/// Node indices are stable: nodes are never removed or reordered, only bonds
/// are.
#[derive(Debug)]
pub struct Scene<S, P> {
    pub nodes: Vec<Node<S>>,
    pub connections: ConnectionMap<P>,
    /// Distance and strength of the repulsion between nodes of different
    /// bodies.
    pub object_repulsion: P,
}

impl<S: Copy, P: Copy> Scene<S, P> {
    /// The bond map is well formed and every bond ends at a node of the scene.
    pub open spec fn wf(&self) -> bool {
        &&& self.connections.wf()
        &&& bonds_within(self.connections.entries(), self.nodes@.len() as int)
    }

    /// Whether `other` holds the same nodes, bonds and repulsion parameters.
    pub open spec fn same_as(&self, other: &Self) -> bool {
        &&& self.nodes@ == other.nodes@
        &&& self.connections.entries() == other.connections.entries()
        &&& self.object_repulsion == other.object_repulsion
    }

    /// Checks that every bond ends at a node of the scene.
    pub fn is_valid(&self) -> (out: bool)
        requires
            self.connections.wf(),
        ensures
            out == self.wf(),
    {
        let bonds = self.connections.bonds();
        let n = self.nodes.len();
        let mut i: usize = 0;
        while i < bonds.len()
            invariant
                i <= bonds@.len(),
                n == self.nodes@.len(),
                bonds@ == self.connections.entries(),
                forall|t: int| 0 <= t < i ==> (#[trigger] bonds@[t]).b < n,
            decreases bonds@.len() - i,
        {
            if bonds[i].b >= n {
                return false;
            }
            i += 1;
        }
        true
    }

    /// A copy of the scene.
    pub fn snapshot(&self) -> (out: Self)
        ensures
            out.same_as(self),
    {
        let mut nodes: Vec<Node<S>> = Vec::with_capacity(self.nodes.len());
        let mut i: usize = 0;
        while i < self.nodes.len()
            invariant
                i <= self.nodes@.len(),
                nodes@ == self.nodes@.take(i as int),
            decreases self.nodes@.len() - i,
        {
            nodes.push(self.nodes[i]);
            proof {
                assert(self.nodes@.take(i + 1) =~= self.nodes@.take(i as int).push(
                    self.nodes@[i as int],
                ));
            }
            i += 1;
        }
        proof {
            assert(self.nodes@.take(self.nodes@.len() as int) =~= self.nodes@);
        }
        Scene {
            nodes,
            connections: self.connections.snapshot(),
            object_repulsion: self.object_repulsion,
        }
    }
}

} // verus!
