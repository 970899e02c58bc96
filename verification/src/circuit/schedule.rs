//! The static schedule of a circuit, and the detection of fixed points.
//!
//! A circuit is a graph of operator nodes.  At each clock tick every node
//! runs once, after the nodes that it takes its inputs from.  A strict node,
//! such as a delay, emits what it took at the tick before, so it does not
//! wait for its inputs; a cycle of the graph must pass through one.

use vstd::prelude::*;
use vstd::seq_lib::seq_to_set_is_finite;
use vstd::set_lib::lemma_len_subset;
use crate::error::SchedulerError;

verus! {

/// The node `u` comes before the position `j` in `order`.
pub open spec fn precedes(order: Seq<usize>, j: int, u: usize) -> bool {
    exists|i: int| 0 <= i < j && #[trigger] order[i] == u
}

/// One node of a circuit.
pub struct Node {
    inputs: Vec<usize>,
    strict: bool,
}

/// The graph of a circuit: its nodes, each with the nodes that it takes its
/// inputs from.
pub struct Circuit {
    nodes: Vec<Node>,
}

impl Circuit {
    /// The number of nodes.
    pub closed spec fn size(&self) -> nat {
        self.nodes@.len()
    }

    /// The nodes that the node `v` takes its inputs from.
    pub closed spec fn inputs(&self, v: int) -> Seq<usize> {
        self.nodes@[v].inputs@
    }

    /// The node `v` is strict: it emits before it takes its inputs.
    pub closed spec fn is_strict(&self, v: int) -> bool {
        self.nodes@[v].strict
    }

    /// Every input of every node is a node of the circuit.
    pub closed spec fn wf(&self) -> bool {
        forall|v: int, e: int|
            0 <= v < self.nodes@.len() && 0 <= e < self.nodes@[v].inputs@.len() ==> (
            #[trigger] self.nodes@[v].inputs@[e]) < self.nodes@.len()
    }

    /// `order` is a schedule: it holds every node once, and each node that
    /// is not strict comes after the nodes that it takes its inputs from.
    pub open spec fn is_schedule(&self, order: Seq<usize>) -> bool {
        &&& order.len() == self.size()
        &&& forall|i: int| 0 <= i < order.len() ==> (#[trigger] order[i]) < self.size()
        &&& forall|i: int, j: int| 0 <= i < j < order.len() ==> order[i] != order[j]
        &&& forall|j: int, e: int|
            #![trigger self.inputs(order[j] as int)[e]]
            0 <= j < order.len() && !self.is_strict(order[j] as int) && 0 <= e < self.inputs(
                order[j] as int,
            ).len() ==> precedes(order, j, self.inputs(order[j] as int)[e])
    }

    /// The circuit without nodes.
    pub fn new() -> (r: Self)
        ensures
            r.wf(),
            r.size() == 0,
    {
        Circuit { nodes: Vec::new() }
    }

    /// Adds a node without inputs and returns its number.
    pub fn add_node(&mut self, strict: bool) -> (id: usize)
        requires
            old(self).wf(),
        ensures
            final(self).wf(),
            id == old(self).size(),
            final(self).size() == old(self).size() + 1,
            final(self).is_strict(id as int) == strict,
            final(self).inputs(id as int).len() == 0,
            forall|v: int|
                0 <= v < old(self).size() ==> final(self).inputs(v) == old(self).inputs(v) && final(self).is_strict(v) == old(self).is_strict(v),
    {
        let id = self.nodes.len();
        self.nodes.push(Node { inputs: Vec::new(), strict });
        id
    }

    /// Makes the node `to` take an input from the node `from`.  Returns
    /// `false`, and leaves the circuit as it is, where one of them is no node
    /// of the circuit.
    pub fn connect(&mut self, from: usize, to: usize) -> (r: bool)
        requires
            old(self).wf(),
        ensures
            final(self).wf(),
            final(self).size() == old(self).size(),
            r == (from < old(self).size() && to < old(self).size()),
            !r ==> *final(self) == *old(self),
            r ==> final(self).inputs(to as int) == old(self).inputs(to as int).push(from),
            forall|v: int|
                0 <= v < old(self).size() ==> final(self).is_strict(v) == old(self).is_strict(v) && (
                v != to ==> final(self).inputs(v) == old(self).inputs(v)),
    {
        if from >= self.nodes.len() || to >= self.nodes.len() {
            return false;
        }
        let ghost before = self.nodes@;
        let node = self.nodes.remove(to);
        let mut inputs = node.inputs;
        inputs.push(from);
        let ghost after = Node { inputs, strict: node.strict };
        self.nodes.insert(to, Node { inputs, strict: node.strict });
        proof {
            assert(self.nodes@ =~= before.update(to as int, after));
            assert forall|v: int, e: int|
                0 <= v < self.nodes@.len() && 0 <= e < self.nodes@[v].inputs@.len() implies (
            #[trigger] self.nodes@[v].inputs@[e]) < self.nodes@.len() by {
                if v != to {
                    assert(before[v].inputs@[e] < before.len());
                } else if e < before[v].inputs@.len() {
                    assert(before[v].inputs@[e] < before.len());
                }
            }
        }
        true
    }

    /// The number of nodes.
    pub fn len(&self) -> (r: usize)
        ensures
            r == self.size(),
    {
        self.nodes.len()
    }

    /// Tells whether the node `v` can run once the nodes marked in `done`
    /// have run: it is strict, or all its inputs are marked.
    fn ready(&self, v: usize, done: &Vec<bool>) -> (r: bool)
        requires
            self.wf(),
            v < self.size(),
            done@.len() == self.size(),
        ensures
            r == (self.is_strict(v as int) || forall|e: int|
                0 <= e < self.inputs(v as int).len() ==> done@[(#[trigger] self.inputs(
                    v as int,
                )[e]) as int]),
    {
        let node = &self.nodes[v];
        if node.strict {
            return true;
        }
        let mut e: usize = 0;
        while e < node.inputs.len()
            invariant
                self.wf(),
                v < self.size(),
                done@.len() == self.size(),
                *node == self.nodes@[v as int],
                !self.is_strict(v as int),
                e <= node.inputs@.len(),
                forall|d: int| 0 <= d < e ==> done@[(#[trigger] self.inputs(v as int)[d]) as int],
            decreases node.inputs@.len() - e,
        {
            assert(self.nodes@[v as int].inputs@[e as int] < self.nodes@.len());
            if !done[node.inputs[e]] {
                assert(!done@[self.inputs(v as int)[e as int] as int]);
                return false;
            }
            e = e + 1;
        }
        true
    }

    /// Where every node that has not run waits for an input that has not
    /// run, and fewer nodes have run than a schedule holds, there is no
    /// schedule.
    proof fn lemma_stuck(&self, done: Seq<bool>, ran: Seq<usize>, order: Seq<usize>)
        requires
            self.wf(),
            done.len() == self.size(),
            ran.len() < self.size(),
            forall|v: int| 0 <= v < done.len() && done[v] ==> exists|i: int|
                0 <= i < ran.len() && #[trigger] ran[i] == v,
            forall|v: int|
                0 <= v < self.size() && !done[v] ==> !self.is_strict(v) && exists|e: int|
                    0 <= e < self.inputs(v).len() && !done[(#[trigger] self.inputs(v)[e]) as int],
        ensures
            !self.is_schedule(order),
    {
        if self.is_schedule(order) {
            self.lemma_all_done(done, order, order.len() as int);
            assert forall|x: usize| order.to_set().contains(x) implies ran.to_set().contains(x) by {
                let j = choose|j: int| 0 <= j < order.len() && order[j] == x;
                assert(done[order[j] as int]);
                let i = choose|i: int| 0 <= i < ran.len() && #[trigger] ran[i] == order[j];
                assert(ran[i] == x);
            }
            seq_to_set_is_finite(ran);
            lemma_len_subset(order.to_set(), ran.to_set());
            assert(order.no_duplicates());
            order.unique_seq_to_set();
            ran.lemma_cardinality_of_set();
        }
    }

    /// In a state in which every node that has not run waits for an input
    /// that has not run, the first `n` nodes of a schedule have all run.
    proof fn lemma_all_done(&self, done: Seq<bool>, order: Seq<usize>, n: int)
        requires
            self.wf(),
            self.is_schedule(order),
            done.len() == self.size(),
            0 <= n <= order.len(),
            forall|v: int|
                0 <= v < self.size() && !done[v] ==> !self.is_strict(v) && exists|e: int|
                    0 <= e < self.inputs(v).len() && !done[(#[trigger] self.inputs(v)[e]) as int],
        ensures
            forall|j: int| 0 <= j < n ==> done[(#[trigger] order[j]) as int],
        decreases n,
    {
        if n > 0 {
            self.lemma_all_done(done, order, n - 1);
            let v = order[n - 1] as int;
            if !done[v] {
                let e = choose|e: int|
                    0 <= e < self.inputs(v).len() && !done[(#[trigger] self.inputs(v)[e]) as int];
                assert(precedes(order, n - 1, self.inputs(order[n - 1] as int)[e]));
                let i = choose|i: int| 0 <= i < n - 1 && #[trigger] order[i] == self.inputs(v)[e];
                assert(done[order[i] as int]);
            }
        }
    }

    /// Computes a schedule of the circuit.  Where the circuit has a cycle
    /// that passes through no strict node there is no schedule, and only
    /// there.
    pub fn schedule(&self) -> (r: Result<Vec<usize>, SchedulerError>)
        requires
            self.wf(),
        ensures
            r matches Ok(order) ==> self.is_schedule(order@),
            r matches Err(e) ==> e == SchedulerError::CyclicCircuit && forall|order: Seq<usize>|
                !self.is_schedule(order),
    {
        let n = self.nodes.len();
        let mut done: Vec<bool> = Vec::new();
        while done.len() < n
            invariant
                done@.len() <= n,
                forall|v: int| 0 <= v < done@.len() ==> !done@[v],
            decreases n - done@.len(),
        {
            done.push(false);
        }
        let mut order: Vec<usize> = Vec::new();
        let mut round: usize = 0;
        while round < n
            invariant
                self.wf(),
                n == self.size(),
                round <= n,
                done@.len() == n,
                order@.len() == round,
                forall|i: int| 0 <= i < order@.len() ==> (#[trigger] order@[i]) < n && done@[
                    order@[i] as int
                ],
                forall|v: int| 0 <= v < n && done@[v] ==> exists|i: int|
                    0 <= i < order@.len() && #[trigger] order@[i] == v,
                forall|i: int, j: int| 0 <= i < j < order@.len() ==> order@[i] != order@[j],
                forall|j: int, e: int|
                    #![trigger self.inputs(order@[j] as int)[e]]
                    0 <= j < order@.len() && !self.is_strict(order@[j] as int) && 0 <= e < self.inputs(
                        order@[j] as int,
                    ).len() ==> precedes(order@, j, self.inputs(order@[j] as int)[e]),
            decreases n - round,
        {
            let mut v: usize = 0;
            let mut found = false;
            while v < n
                invariant_except_break
                    !found,
                invariant
                    self.wf(),
                    n == self.size(),
                    v <= n,
                    done@.len() == n,
                    forall|u: int|
                        0 <= u < v && !done@[u] ==> !self.is_strict(u) && exists|e: int|
                            0 <= e < self.inputs(u).len() && !done@[(#[trigger] self.inputs(u)[e]) as int],
                ensures
                    found ==> v < n && !done@[v as int] && (self.is_strict(v as int) || forall|e: int|
                        0 <= e < self.inputs(v as int).len() ==> done@[(#[trigger] self.inputs(
                            v as int,
                        )[e]) as int]),
                    !found ==> v == n,
                decreases n - v,
            {
                if !done[v] && self.ready(v, &done) {
                    found = true;
                    break ;
                }
                v = v + 1;
            }
            if !found {
                proof {
                    assert forall|candidate: Seq<usize>| !self.is_schedule(candidate) by {
                        self.lemma_stuck(done@, order@, candidate);
                    }
                }
                return Err(SchedulerError::CyclicCircuit);
            }
            let ghost before = order@;
            let ghost marks = done@;
            done.set(v, true);
            order.push(v);
            proof {
                assert forall|u: int| 0 <= u < n && done@[u] implies exists|i: int|
                    0 <= i < order@.len() && #[trigger] order@[i] == u by {
                    if u == v {
                        assert(order@[before.len() as int] == v);
                    } else {
                        let i = choose|i: int| 0 <= i < before.len() && #[trigger] before[i] == u;
                        assert(order@[i] == u);
                    }
                }
                assert forall|j: int, e: int|
                    #![trigger self.inputs(order@[j] as int)[e]]
                    0 <= j < order@.len() && !self.is_strict(order@[j] as int) && 0 <= e < self.inputs(
                        order@[j] as int,
                    ).len() implies precedes(order@, j, self.inputs(order@[j] as int)[e]) by {
                    if j < before.len() {
                        assert(order@[j] == before[j]);
                        assert(precedes(before, j, self.inputs(before[j] as int)[e]));
                        let i = choose|i: int|
                            0 <= i < j && #[trigger] before[i] == self.inputs(before[j] as int)[e];
                        assert(order@[i] == before[i]);
                    } else {
                        let u = self.inputs(v as int)[e];
                        assert(marks[u as int]);
                        let i = choose|i: int| 0 <= i < before.len() && #[trigger] before[i] == u;
                        assert(order@[i] == u);
                    }
                }
            }
            round = round + 1;
        }
        Ok(order)
    }
}

/// What the scheduler does after a pass of a nested circuit.
#[derive(Clone, Copy, Debug, PartialEq, Eq, Structural)]
pub enum Verdict {
    /// An operator was dirty: run another pass.
    Again,
    /// No operator was dirty for a full pass: the fixed point is reached.
    Done,
}

/// Detects the fixed point of a nested circuit.
///
/// The scheduler reads and clears the dirty flags of the operators at the
/// top of each pass and tells the detector whether one of them was set.  The
/// detector counts the passes since the last fixed point and gives up when
/// their number reaches the bound.
pub struct FixedPoint {
    passes: usize,
    bound: usize,
}

impl FixedPoint {
    /// The number of passes since the last fixed point.
    pub closed spec fn passes(&self) -> nat {
        self.passes as nat
    }

    /// The bound on the number of passes.
    pub closed spec fn bound(&self) -> nat {
        self.bound as nat
    }

    /// The detector counts fewer passes than the bound, or none.
    pub closed spec fn wf(&self) -> bool {
        self.passes == 0 || self.passes < self.bound
    }

    /// A detector that allows `bound` passes.
    pub fn new(bound: usize) -> (r: Self)
        ensures
            r.wf(),
            r.passes() == 0,
            r.bound() == bound,
    {
        FixedPoint { passes: 0, bound }
    }

    /// Takes what the dirty flags said at the top of a pass.
    ///
    /// Where no flag was set the fixed point is reached and the count starts
    /// anew.  Where a flag was set another pass is due, unless the passes
    /// have then reached the bound: then the detector fails and starts the
    /// count anew.
    pub fn observe(&mut self, dirty: bool) -> (r: Result<Verdict, SchedulerError>)
        requires
            old(self).wf(),
        ensures
            final(self).wf(),
            final(self).bound() == old(self).bound(),
            !dirty ==> r == Ok::<Verdict, SchedulerError>(Verdict::Done) && final(self).passes() == 0,
            dirty && old(self).passes() + 1 < old(self).bound() ==> r == Ok::<
                Verdict,
                SchedulerError,
            >(Verdict::Again) && final(self).passes() == old(self).passes() + 1,
            dirty && old(self).passes() + 1 >= old(self).bound() ==> r == Err::<
                Verdict,
                SchedulerError,
            >(SchedulerError::FixedPointNotReached) && final(self).passes() == 0,
    {
        if !dirty {
            self.passes = 0;
            Ok(Verdict::Done)
        } else if self.passes < self.bound && self.passes + 1 < self.bound {
            self.passes = self.passes + 1;
            Ok(Verdict::Again)
        } else {
            self.passes = 0;
            Err(SchedulerError::FixedPointNotReached)
        }
    }
}

/// Tells whether one of the dirty flags is set.
pub fn any_dirty(flags: &Vec<bool>) -> (r: bool)
    ensures
        r == exists|i: int| 0 <= i < flags@.len() && flags@[i],
{
    let mut i: usize = 0;
    while i < flags.len()
        invariant
            i <= flags.len(),
            forall|j: int| 0 <= j < i ==> !flags@[j],
        decreases flags.len() - i,
    {
        if flags[i] {
            return true;
        }
        i = i + 1;
    }
    false
}

} // verus!
