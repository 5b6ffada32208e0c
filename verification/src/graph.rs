//! The static topology of a run: a table of stages, addressed by small
//! integer handles, and for each stage the ordered list of its destinations.

use crate::stage_id::StageId;
use vstd::prelude::*;

verus! {

/// The role of a stage.
#[derive(Clone, Copy, Debug, PartialEq, Eq, Structural)]
pub enum StageKind {
    /// Cuts the input into fragments and distributes them.
    Source,
    /// Transforms one fragment at a time.
    Worker,
    /// Collects the fragments and restores their order.
    Sink,
}

/// Why an edge was not added.
#[derive(Clone, Copy, Debug, PartialEq, Eq, Structural)]
pub enum EdgeError {
    /// The source or a destination is no stage of the graph.
    UnknownStage,
    /// A destination is named twice, or is a destination of the source already.
    DuplicateDestination,
}

/// One stage of a graph, as a mathematical value.
pub struct StageView {
    pub kind: StageKind,
    /// The destinations, in the order in which a distributor goes through them.
    pub destinations: Seq<StageId>,
}

struct Node {
    kind: StageKind,
    destinations: Vec<StageId>,
}

/// A graph of stages. It is built once, by `add_node` and `add_edge`, before
/// the run starts. That the edges form no cycle is left to the caller.
pub struct Graph {
    nodes: Vec<Node>,
}

impl View for Graph {
    type V = Seq<StageView>;

    closed spec fn view(&self) -> Seq<StageView> {
        Seq::new(
            self.nodes@.len(),
            |i: int| StageView { kind: self.nodes@[i].kind, destinations: self.nodes@[i].destinations@ },
        )
    }
}

/// Every destination is a stage of the graph, and no stage has a destination twice.
pub open spec fn well_formed(stages: Seq<StageView>) -> bool {
    forall|i: int|
        0 <= i < stages.len() ==> (#[trigger] stages[i]).destinations.no_duplicates() && forall|
            p: int,
        |
            0 <= p < stages[i].destinations.len() ==> (#[trigger] stages[i].destinations[p]).0
                < stages.len()
}

/// Every handle of the list names a stage of a graph with `count` stages.
pub open spec fn all_known(ids: Seq<StageId>, count: nat) -> bool {
    forall|p: int| 0 <= p < ids.len() ==> (#[trigger] ids[p]).0 < count
}

/// Why `add_edge(source, destinations)` is refused on a graph, if it is.
pub open spec fn edge_error(
    stages: Seq<StageView>,
    source: StageId,
    destinations: Seq<StageId>,
) -> Option<EdgeError> {
    if source.0 >= stages.len() || !all_known(destinations, stages.len()) {
        Some(EdgeError::UnknownStage)
    } else if !(stages[source.0 as int].destinations + destinations).no_duplicates() {
        Some(EdgeError::DuplicateDestination)
    } else {
        None
    }
}

/// The stages that have `destination` among their destinations, in the order
/// of their handles.
pub open spec fn producers_of(stages: Seq<StageView>, destination: StageId) -> Seq<StageId> {
    Seq::new(stages.len(), |i: int| StageId(i as usize)).filter(
        |source: StageId| stages[source.0 as int].destinations.contains(destination),
    )
}

/// Whether every handle of the list is below `count`.
fn known(ids: &Vec<StageId>, count: usize) -> (all: bool)
    ensures
        all == all_known(ids@, count as nat),
{
    let mut at: usize = 0;
    while at < ids.len()
        invariant
            at <= ids.len(),
            forall|p: int| 0 <= p < at ==> (#[trigger] ids[p]).0 < count,
        decreases ids.len() - at,
    {
        if ids[at].0 >= count {
            return false;
        }
        at = at + 1;
    }
    true
}

/// Whether `id` is among the first `upto` handles of the list.
fn among(ids: &Vec<StageId>, upto: usize, id: StageId) -> (found: bool)
    requires
        upto <= ids.len(),
    ensures
        found == ids@.take(upto as int).contains(id),
{
    let mut at: usize = 0;
    while at < upto
        invariant
            at <= upto <= ids.len(),
            forall|p: int| 0 <= p < at ==> ids[p] != id,
        decreases upto - at,
    {
        if ids[at] == id {
            assert(ids@.take(upto as int)[at as int] == id);
            return true;
        }
        at = at + 1;
    }
    false
}

/// Whether no handle occurs twice in the list.
fn all_distinct(ids: &Vec<StageId>) -> (distinct: bool)
    ensures
        distinct == ids@.no_duplicates(),
{
    let mut at: usize = 0;
    while at < ids.len()
        invariant
            at <= ids.len(),
            ids@.take(at as int).no_duplicates(),
        decreases ids.len() - at,
    {
        if among(ids, at, ids[at]) {
            let ghost earlier = choose|p: int|
                0 <= p < at && ids@.take(at as int)[p] == ids[at as int];
            assert(ids@[earlier] == ids@[at as int]);
            return false;
        }
        proof {
            let longer = ids@.take(at + 1);
            let shorter = ids@.take(at as int);
            assert forall|p: int, q: int| 0 <= p < q < longer.len() implies longer[p]
                != longer[q] by {
                if q == at {
                    assert(shorter[p] == ids@[p]);
                    assert(!shorter.contains(ids@[at as int]));
                } else {
                    assert(shorter[p] != shorter[q]);
                }
            }
        }
        at = at + 1;
    }
    assert(ids@.take(at as int) =~= ids@);
    true
}

impl Graph {
    #[verifier::type_invariant]
    spec fn edges_in_range(self) -> bool {
        forall|i: int|
            0 <= i < self.nodes@.len() ==> (#[trigger] self.nodes@[i]).destinations@.no_duplicates()
                && all_known(self.nodes@[i].destinations@, self.nodes@.len())
    }

    /// A graph without stages.
    pub fn new() -> (graph: Graph)
        ensures
            graph@ == Seq::<StageView>::empty(),
    {
        let graph = Graph { nodes: Vec::new() };
        assert(graph@ =~= Seq::<StageView>::empty());
        graph
    }

    /// The number of stages.
    pub fn stage_count(&self) -> (count: usize)
        ensures
            count == self@.len(),
            well_formed(self@),
    {
        proof {
            use_type_invariant(self);
            assert forall|i: int| 0 <= i < self@.len() implies (#[trigger] self@[i]).destinations.no_duplicates()
                && forall|p: int|
                0 <= p < self@[i].destinations.len() ==> (#[trigger] self@[i].destinations[p]).0
                    < self@.len() by {
                assert(all_known(self.nodes@[i].destinations@, self.nodes@.len()));
            }
        }
        self.nodes.len()
    }

    /// Adds a stage without destinations and gives out its handle: the
    /// number of stages that the graph had before.
    pub fn add_node(&mut self, kind: StageKind) -> (id: StageId)
        ensures
            id.0 == old(self)@.len(),
            final(self)@ == old(self)@.push(StageView { kind, destinations: Seq::empty() }),
    {
        proof {
            use_type_invariant(&*self);
        }
        let mut nodes: Vec<Node> = Vec::new();
        core::mem::swap(&mut self.nodes, &mut nodes);
        let id = StageId(nodes.len());
        nodes.push(Node { kind, destinations: Vec::new() });
        proof {
            assert forall|i: int| 0 <= i < nodes@.len() implies (#[trigger] nodes@[i]).destinations@.no_duplicates()
                && all_known(nodes@[i].destinations@, nodes@.len()) by {
                if i < nodes@.len() - 1 {
                    assert(nodes@[i] == old(self).nodes@[i]);
                    assert(all_known(old(self).nodes@[i].destinations@, old(self).nodes@.len()));
                }
            }
        }
        core::mem::swap(&mut self.nodes, &mut nodes);
        assert(self@ =~= old(self)@.push(StageView { kind, destinations: Seq::empty() }));
        id
    }

    /// Appends `destinations` to the destinations of `source`, keeping their
    /// order. A refused edge leaves the graph as it was.
    #[verifier::spinoff_prover]
    pub fn add_edge(&mut self, source: StageId, destinations: Vec<StageId>) -> (outcome: Result<
        (),
        EdgeError,
    >)
        ensures
            match outcome {
                Ok(_) => edge_error(old(self)@, source, destinations@) is None && final(self)@
                    == old(self)@.update(
                    source.0 as int,
                    StageView {
                        kind: old(self)@[source.0 as int].kind,
                        destinations: old(self)@[source.0 as int].destinations + destinations@,
                    },
                ),
                Err(error) => edge_error(old(self)@, source, destinations@) == Some(error)
                    && final(self)@ == old(self)@,
            },
    {
        proof {
            use_type_invariant(&*self);
        }
        let count: usize = self.nodes.len();
        if source.0 >= count || !known(&destinations, count) {
            return Err(EdgeError::UnknownStage);
        }
        let mut joined: Vec<StageId> = Vec::new();
        let mut at: usize = 0;
        let had: usize = self.nodes[source.0].destinations.len();
        while at < had
            invariant
                source.0 < self.nodes.len(),
                had == self.nodes[source.0 as int].destinations.len(),
                at <= had,
                joined@ == self.nodes[source.0 as int].destinations@.take(at as int),
            decreases had - at,
        {
            joined.push(self.nodes[source.0].destinations[at]);
            at = at + 1;
            assert(joined@ =~= self.nodes[source.0 as int].destinations@.take(at as int));
        }
        assert(self.nodes[source.0 as int].destinations@.take(at as int)
            =~= self.nodes[source.0 as int].destinations@);
        let mut at: usize = 0;
        while at < destinations.len()
            invariant
                at <= destinations.len(),
                joined@ == old(self).nodes[source.0 as int].destinations@ + destinations@.take(
                    at as int,
                ),
            decreases destinations.len() - at,
        {
            joined.push(destinations[at]);
            at = at + 1;
            assert(joined@ =~= old(self).nodes[source.0 as int].destinations@
                + destinations@.take(at as int));
        }
        assert(destinations@.take(at as int) =~= destinations@);
        if !all_distinct(&joined) {
            return Err(EdgeError::DuplicateDestination);
        }
        let kind = self.nodes[source.0].kind;
        let mut nodes: Vec<Node> = Vec::new();
        core::mem::swap(&mut self.nodes, &mut nodes);
        let ghost before = nodes@;
        nodes.set(source.0, Node { kind, destinations: joined });
        proof {
            assert forall|i: int| 0 <= i < nodes@.len() implies (#[trigger] nodes@[i]).destinations@.no_duplicates()
                && all_known(nodes@[i].destinations@, nodes@.len()) by {
                if i != source.0 {
                    assert(nodes@[i] == before[i]);
                    assert(all_known(before[i].destinations@, before.len()));
                } else {
                    assert(all_known(before[i].destinations@, before.len()));
                    assert(all_known(destinations@, before.len()));
                }
            }
        }
        core::mem::swap(&mut self.nodes, &mut nodes);
        assert(self@ =~= old(self)@.update(
            source.0 as int,
            StageView {
                kind: old(self)@[source.0 as int].kind,
                destinations: old(self)@[source.0 as int].destinations + destinations@,
            },
        ));
        Ok(())
    }

    /// The role of stage `id`, or `None` if the graph has no such stage.
    pub fn kind(&self, id: StageId) -> (kind: Option<StageKind>)
        ensures
            kind == (if id.0 < self@.len() {
                Some(self@[id.0 as int].kind)
            } else {
                None
            }),
    {
        if id.0 < self.nodes.len() {
            Some(self.nodes[id.0].kind)
        } else {
            None
        }
    }

    /// The destinations of stage `id`, in order, or `None` if the graph has
    /// no such stage.
    pub fn destinations(&self, id: StageId) -> (destinations: Option<Vec<StageId>>)
        ensures
            id.0 < self@.len() <==> destinations is Some,
            destinations matches Some(list) ==> list@ == self@[id.0 as int].destinations,
    {
        if id.0 >= self.nodes.len() {
            return None;
        }
        let from = &self.nodes[id.0].destinations;
        let mut list: Vec<StageId> = Vec::new();
        let mut at: usize = 0;
        while at < from.len()
            invariant
                at <= from.len(),
                list@ == from@.take(at as int),
            decreases from.len() - at,
        {
            list.push(from[at]);
            at = at + 1;
            assert(list@ =~= from@.take(at as int));
        }
        assert(from@.take(at as int) =~= from@);
        Some(list)
    }

    /// The stages that send to `destination`, in the order of their handles:
    /// the producers that the stage has to drain.
    #[verifier::spinoff_prover]
    pub fn producers(&self, destination: StageId) -> (producers: Vec<StageId>)
        ensures
            producers@ == producers_of(self@, destination),
    {
        let ghost stages = self@;
        let ghost test = |source: StageId| stages[source.0 as int].destinations.contains(destination);
        let ghost handles = Seq::new(stages.len(), |i: int| StageId(i as usize));
        let mut producers: Vec<StageId> = Vec::new();
        let mut at: usize = 0;
        proof {
            assert(handles.take(0) =~= Seq::<StageId>::empty());
            handles.take(0).lemma_filter_len(test);
        }
        while at < self.nodes.len()
            invariant
                at <= self.nodes.len(),
                stages == self@,
                stages.len() == self.nodes.len(),
                handles == Seq::new(stages.len(), |i: int| StageId(i as usize)),
                test == |source: StageId| stages[source.0 as int].destinations.contains(destination),
                producers@ == handles.take(at as int).filter(test),
            decreases self.nodes.len() - at,
        {
            let list = &self.nodes[at].destinations;
            let found = among(list, list.len(), destination);
            proof {
                assert(list@.take(list.len() as int) =~= list@);
                assert(stages[at as int].destinations == list@);
                assert(handles.take(at + 1) =~= handles.take(at as int).push(StageId(at)));
                handles.take(at as int).lemma_filter_push(StageId(at), test);
                assert(test(StageId(at)) == found);
            }
            if found {
                producers.push(StageId(at));
            }
            at = at + 1;
        }
        assert(handles.take(at as int) =~= handles);
        producers
    }
}

} // verus!
