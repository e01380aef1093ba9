use crate::adjacency::lists_closed;
use vstd::prelude::*;

verus! {

/// Number of samples that the history keeps for each node.
pub const TEMPERATURE_CACHE_SIZE: usize = 500;

/// How many bonds away the neighbourhood of a node reaches when a per-node
/// quantity is averaged.
pub const AVERAGING_DEPTH: u8 = 4;

/// A bounded history of one sample stream per node: a ring of
/// `TEMPERATURE_CACHE_SIZE` slots for each node and the slot written last.
#[derive(Debug)]
pub struct TemperatureCache<T> {
    pub history: Vec<Vec<T>>,
    pub current_record: usize,
}

impl<T: Copy> TemperatureCache<T> {
    /// Every node has a full ring and the cursor points into it.
    pub open spec fn wf(&self) -> bool {
        &&& self.current_record < TEMPERATURE_CACHE_SIZE
        &&& forall|i: int|
            0 <= i < self.history@.len() ==> (#[trigger] self.history@[i])@.len()
                == TEMPERATURE_CACHE_SIZE
    }

    /// A history for no nodes.
    pub fn new() -> (out: Self)
        ensures
            out.wf(),
            out.history@.len() == 0,
            out.current_record == 0,
    {
        TemperatureCache { history: Vec::new(), current_record: 0 }
    }

    /// Makes the history cover `node_count` nodes. Nodes that were covered
    /// keep their samples; new nodes start with a ring full of `zero`.
    pub fn resize(&mut self, node_count: usize, zero: T)
        requires
            old(self).wf(),
        ensures
            final(self).wf(),
            final(self).history@.len() == node_count,
            final(self).current_record == old(self).current_record,
            forall|i: int|
                0 <= i < node_count && i < old(self).history@.len() ==> #[trigger] final(self).history@[i] == old(self).history@[i],
            forall|i: int|
                old(self).history@.len() <= i < node_count ==> (#[trigger] final(self).history@[i])@ == Seq::new(TEMPERATURE_CACHE_SIZE as nat, |k: int| zero),
    {
        while self.history.len() > node_count
            invariant
                self.wf(),
                self.current_record == old(self).current_record,
                self.history@.len() <= old(self).history@.len(),
                old(self).history@.len() <= node_count ==> self.history@.len() == old(self).history@.len(),
                old(self).history@.len() > node_count ==> self.history@.len() >= node_count,
                forall|i: int|
                    0 <= i < self.history@.len() ==> #[trigger] self.history@[i] == old(self).history@[i],
            decreases self.history@.len(),
        {
            self.history.pop();
        }
        while self.history.len() < node_count
            invariant
                self.wf(),
                self.current_record == old(self).current_record,
                self.history@.len() <= node_count,
                old(self).history@.len() <= node_count ==> old(self).history@.len()
                    <= self.history@.len(),
                old(self).history@.len() > node_count ==> self.history@.len() == node_count,
                forall|i: int|
                    0 <= i < self.history@.len() && i < old(self).history@.len()
                        ==> #[trigger] self.history@[i] == old(self).history@[i],
                forall|i: int|
                    old(self).history@.len() <= i < self.history@.len() ==> (
                    #[trigger] self.history@[i])@ == Seq::new(
                        TEMPERATURE_CACHE_SIZE as nat,
                        |k: int| zero,
                    ),
            decreases node_count - self.history@.len(),
        {
            let mut ring: Vec<T> = Vec::with_capacity(TEMPERATURE_CACHE_SIZE);
            let mut k: usize = 0;
            while k < TEMPERATURE_CACHE_SIZE
                invariant
                    k <= TEMPERATURE_CACHE_SIZE,
                    ring@ == Seq::new(k as nat, |k: int| zero),
                decreases TEMPERATURE_CACHE_SIZE - k,
            {
                ring.push(zero);
                proof {
                    assert(ring@ =~= Seq::new((k + 1) as nat, |k: int| zero));
                }
                k += 1;
            }
            self.history.push(ring);
        }
    }

    /// Moves the cursor to the next slot, wrapping at the end of the ring, and
    /// writes the sample of each node there. The oldest sample is lost.
    pub fn record(&mut self, samples: &Vec<T>)
        requires
            old(self).wf(),
            samples@.len() == old(self).history@.len(),
        ensures
            final(self).wf(),
            final(self).current_record == (old(self).current_record + 1) % (
            TEMPERATURE_CACHE_SIZE as int),
            final(self).history@.len() == old(self).history@.len(),
            forall|i: int|
                0 <= i < samples@.len() ==> (#[trigger] final(self).history@[i])@ == old(self).history@[i]@.update(final(self).current_record as int, samples@[i]),
    {
        let slot = if self.current_record + 1 == TEMPERATURE_CACHE_SIZE {
            0
        } else {
            self.current_record + 1
        };
        self.current_record = slot;
        let mut i: usize = 0;
        while i < samples.len()
            invariant
                i <= samples@.len(),
                slot < TEMPERATURE_CACHE_SIZE,
                self.current_record == slot,
                samples@.len() == self.history@.len(),
                self.history@.len() == old(self).history@.len(),
                old(self).wf(),
                forall|n: int|
                    0 <= n < i ==> (#[trigger] self.history@[n])@ == old(self).history@[n]@.update(
                        slot as int,
                        samples@[n],
                    ),
                forall|n: int|
                    i <= n < samples@.len() ==> #[trigger] self.history@[n] == old(self).history@[n],
            decreases samples@.len() - i,
        {
            self.history[i][slot] = samples[i];
            i += 1;
        }
    }
}

/// The walk from node `i` through its first `upto` neighbours, `depth` bonds
/// deep: for each neighbour in turn, the walk from that neighbour one bond
/// less deep, then the neighbour itself.
pub open spec fn walk_row<P>(structure: Seq<Vec<(usize, P)>>, i: int, depth: nat, upto: int) -> Seq<
    usize,
>
    decreases depth, upto,
{
    if depth == 0 || upto <= 0 {
        Seq::empty()
    } else {
        let j = structure[i]@[upto - 1].0;
        walk_row(structure, i, depth, upto - 1) + walk_row(
            structure,
            j as int,
            (depth - 1) as nat,
            structure[j as int]@.len() as int,
        ).push(j)
    }
}

/// The walk from node `i` through all of its neighbours, `depth` bonds deep.
/// A node is listed once for every path of at most `depth` bonds that leads
/// to it.
pub open spec fn walk<P>(structure: Seq<Vec<(usize, P)>>, i: int, depth: nat) -> Seq<usize> {
    walk_row(structure, i, depth, structure[i]@.len() as int)
}

/// Appends the walk from node `i`, `depth` bonds deep, to `out`.
fn walk_into<P: Copy>(
    connections_structure: &Vec<Vec<(usize, P)>>,
    i: usize,
    depth: u8,
    out: &mut Vec<usize>,
)
    requires
        lists_closed(connections_structure@),
        i < connections_structure@.len(),
    ensures
        final(out)@ == old(out)@ + walk(connections_structure@, i as int, depth as nat),
    decreases depth,
{
    if depth == 0 {
        proof {
            assert(out@ =~= old(out)@ + Seq::<usize>::empty());
        }
        return ;
    }
    let row = &connections_structure[i];
    let mut t: usize = 0;
    proof {
        assert(out@ =~= old(out)@ + Seq::<usize>::empty());
    }
    while t < row.len()
        invariant
            t <= row@.len(),
            depth > 0,
            lists_closed(connections_structure@),
            i < connections_structure@.len(),
            row@ == connections_structure@[i as int]@,
            out@ == old(out)@ + walk_row(connections_structure@, i as int, depth as nat, t as int),
        decreases row@.len() - t,
    {
        let j = row[t].0;
        let ghost before = out@;
        proof {
            assert(connections_structure@[i as int]@[t as int].0 < connections_structure@.len());
        }
        walk_into(connections_structure, j, depth - 1, out);
        out.push(j);
        proof {
            let deeper = walk(connections_structure@, j as int, (depth - 1) as nat);
            assert(out@ =~= old(out)@ + (walk_row(
                connections_structure@,
                i as int,
                depth as nat,
                t as int,
            ) + deeper.push(j)));
        }
        t += 1;
    }
}

/// The nodes over which a per-node quantity is averaged around node `i`:
/// the walk from `i`, `AVERAGING_DEPTH` bonds deep. The list does not hold
/// `i` for itself, only where a path leads back to it.
pub fn averaging_neighbourhood<P: Copy>(connections_structure: &Vec<Vec<(usize, P)>>, i: usize) -> (out:
    Vec<usize>)
    requires
        lists_closed(connections_structure@),
        i < connections_structure@.len(),
    ensures
        out@ == walk(connections_structure@, i as int, AVERAGING_DEPTH as nat),
{
    let mut out: Vec<usize> = Vec::new();
    walk_into(connections_structure, i, AVERAGING_DEPTH, &mut out);
    proof {
        assert(out@ =~= Seq::<usize>::empty() + walk(
            connections_structure@,
            i as int,
            AVERAGING_DEPTH as nat,
        ));
    }
    out
}

} // verus!
