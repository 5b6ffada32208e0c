//! The topology that every pipeline shares: one source that fans out to
//! parallel lanes, each lane a chain of worker stages, and, where the results
//! are collected, one sink that all lanes end in.

use crate::graph::{edge_error, Graph, StageKind, StageView};
use crate::stage_id::StageId;
use vstd::arithmetic::div_mod::lemma_fundamental_div_mod_converse;
use vstd::prelude::*;

verus! {

/// A pipeline graph together with the handles of its stages.
pub struct PipelineLayout {
    pub graph: Graph,
    pub source: StageId,
    pub sink: Option<StageId>,
    /// `lanes[k][j]` is the worker at level `j` of lane `k`.
    pub lanes: Vec<Vec<StageId>>,
}

/// The handle of the first worker: the source is stage 0, the sink, if there
/// is one, stage 1.
pub open spec fn first_worker(with_sink: bool) -> nat {
    if with_sink {
        2
    } else {
        1
    }
}

/// The handle of the worker at level `level` of lane `lane`.
pub open spec fn worker_id(depth: nat, with_sink: bool, lane: nat, level: nat) -> StageId {
    StageId((first_worker(with_sink) + lane * depth + level) as usize)
}

/// Stage `index` of the pipeline graph with `workers` lanes of `depth`
/// levels: the source sends to the first worker of every lane, in lane
/// order; a worker sends to the next level of its lane, and the last level to
/// the sink, if there is one.
pub open spec fn pipeline_stage(workers: nat, depth: nat, with_sink: bool, index: nat) -> StageView {
    if index == 0 {
        StageView {
            kind: StageKind::Source,
            destinations: Seq::new(workers, |lane: int| worker_id(depth, with_sink, lane as nat, 0)),
        }
    } else if index < first_worker(with_sink) {
        StageView { kind: StageKind::Sink, destinations: Seq::empty() }
    } else if (index - first_worker(with_sink)) % (depth as int) != depth - 1 {
        StageView { kind: StageKind::Worker, destinations: seq![StageId((index + 1) as usize)] }
    } else if with_sink {
        StageView { kind: StageKind::Worker, destinations: seq![StageId(1)] }
    } else {
        StageView { kind: StageKind::Worker, destinations: Seq::empty() }
    }
}

/// The whole pipeline graph.
pub open spec fn pipeline_graph(workers: nat, depth: nat, with_sink: bool) -> Seq<StageView> {
    Seq::new(
        first_worker(with_sink) + workers * depth,
        |index: int| pipeline_stage(workers, depth, with_sink, index as nat),
    )
}

/// `layout` is the pipeline of `workers` lanes of `depth` levels.
pub open spec fn lays_out(layout: PipelineLayout, workers: nat, depth: nat, with_sink: bool) -> bool {
    &&& layout.graph@ == pipeline_graph(workers, depth, with_sink)
    &&& layout.source == StageId(0)
    &&& layout.sink == (if with_sink {
        Some(StageId(1))
    } else {
        None
    })
    &&& layout.lanes@.len() == workers
    &&& forall|lane: int|
        0 <= lane < workers ==> (#[trigger] layout.lanes@[lane])@ == Seq::new(
            depth,
            |level: int| worker_id(depth, with_sink, lane as nat, level as nat),
        )
}

/// The level of a worker, read off its handle.
proof fn lemma_level_of(depth: nat, with_sink: bool, lane: nat, level: nat)
    requires
        level < depth,
    ensures
        (worker_id(depth, with_sink, lane, level).0 - first_worker(with_sink)) % (depth as int)
            == level || first_worker(with_sink) + lane * depth + level > usize::MAX,
{
    lemma_fundamental_div_mod_converse(
        (lane * depth + level) as int,
        depth as int,
        lane as int,
        level as int,
    );
}

/// Later lanes have larger handles.
proof fn lemma_lanes_ascend(depth: nat, first: nat, second: nat)
    requires
        first < second,
        depth > 0,
    ensures
        first * depth + depth <= second * depth,
{
    assert(first * depth + depth <= second * depth) by (nonlinear_arith)
        requires
            first < second,
            depth > 0,
    ;
}

/// Builds the pipeline graph of `workers` lanes with `depth` worker stages
/// each, with or without a sink. Returns `None` if there would be no worker,
/// or more stages than handles.
#[verifier::spinoff_prover]
pub fn build_pipeline(workers: usize, depth: usize, with_sink: bool) -> (layout: Option<
    PipelineLayout,
>)
    ensures
        layout is Some <==> workers > 0 && depth > 0 && first_worker(with_sink) + workers * depth
            <= usize::MAX,
        layout matches Some(built) ==> lays_out(built, workers as nat, depth as nat, with_sink),
{
    if workers == 0 || depth == 0 {
        return None;
    }
    let base: usize = if with_sink {
        2
    } else {
        1
    };
    let product: usize = match workers.checked_mul(depth) {
        Some(product) => product,
        None => {
            return None;
        },
    };
    if product > usize::MAX - base {
        return None;
    }
    let ghost w = workers as nat;
    let ghost d = depth as nat;
    let mut graph = Graph::new();
    let source = graph.add_node(StageKind::Source);
    let mut sink: Option<StageId> = None;
    if with_sink {
        sink = Some(graph.add_node(StageKind::Sink));
    }
    let mut lanes: Vec<Vec<StageId>> = Vec::new();
    let mut firsts: Vec<StageId> = Vec::new();
    let mut lane: usize = 0;
    proof {
        assert(0 * d == 0) by (nonlinear_arith);
    }
    while lane < workers
        invariant
            0 < depth,
            lane <= workers,
            base == first_worker(with_sink),
            w == workers,
            d == depth,
            base + workers * depth <= usize::MAX,
            graph@.len() == base + lane * depth,
            graph@[0] == (StageView { kind: StageKind::Source, destinations: Seq::empty() }),
            forall|i: int|
                1 <= i < graph@.len() ==> #[trigger] graph@[i] == pipeline_stage(w, d, with_sink, i as nat),
            lanes@.len() == lane,
            forall|k: int|
                0 <= k < lane ==> (#[trigger] lanes@[k])@ == Seq::new(
                    d,
                    |level: int| worker_id(d, with_sink, k as nat, level as nat),
                ),
            firsts@ == Seq::new(lane as nat, |k: int| worker_id(d, with_sink, k as nat, 0)),
        decreases workers - lane,
    {
        let ghost start = graph@.len();
        proof {
            lemma_lanes_ascend(d, lane as nat, w);
            if lane + 1 < workers {
                lemma_lanes_ascend(d, (lane + 1) as nat, w);
            }
            assert((lane + 1) * depth == lane * depth + depth) by (nonlinear_arith);
        }
        let mut ids: Vec<StageId> = Vec::new();
        let mut level: usize = 0;
        while level < depth
            invariant
                0 < depth,
                lane < workers,
                level <= depth,
                base == first_worker(with_sink),
                w == workers,
                d == depth,
                start == base + lane * depth,
                start + depth <= usize::MAX,
                graph@.len() == start + level,
                graph@[0] == (StageView { kind: StageKind::Source, destinations: Seq::empty() }),
                forall|i: int|
                    1 <= i < graph@.len() && !(level > 0 && i == start + level - 1)
                        ==> #[trigger] graph@[i] == pipeline_stage(w, d, with_sink, i as nat),
                level > 0 ==> graph@[start + level - 1] == (StageView {
                    kind: StageKind::Worker,
                    destinations: Seq::empty(),
                }),
                ids@ == Seq::new(
                    level as nat,
                    |x: int| worker_id(d, with_sink, lane as nat, x as nat),
                ),
            decreases depth - level,
        {
            let ghost before = graph@;
            let id = graph.add_node(StageKind::Worker);
            if level > 0 {
                let previous = StageId(id.0 - 1);
                let next: Vec<StageId> = vec![id];
                proof {
                    assert(next@ =~= seq![id]);
                    assert(graph@[previous.0 as int] == before[previous.0 as int]);
                    assert((Seq::<StageId>::empty() + next@) =~= next@);
                    assert(next@.no_duplicates());
                    assert(edge_error(graph@, previous, next@) is None);
                }
                let ghost middle = graph@;
                graph.add_edge(previous, next).unwrap();
                proof {
                    lemma_level_of(d, with_sink, lane as nat, (level - 1) as nat);
                    assert(graph@[previous.0 as int].destinations =~= seq![StageId(
                        (previous.0 + 1) as usize,
                    )]);
                    assert(graph@[previous.0 as int] == pipeline_stage(
                        w,
                        d,
                        with_sink,
                        previous.0 as nat,
                    ));
                    assert forall|i: int|
                        1 <= i < graph@.len() && i != start + level implies #[trigger] graph@[i]
                            == pipeline_stage(w, d, with_sink, i as nat) by {
                        if i != previous.0 {
                            assert(graph@[i] == middle[i]);
                            assert(middle[i] == before[i]);
                        }
                    }
                }
            } else {
                proof {
                    assert forall|i: int|
                        1 <= i < graph@.len() && i != start + level implies #[trigger] graph@[i]
                            == pipeline_stage(w, d, with_sink, i as nat) by {
                        assert(graph@[i] == before[i]);
                    }
                }
            }
            ids.push(id);
            level = level + 1;
            proof {
                assert(ids@ =~= Seq::new(
                    level as nat,
                    |x: int| worker_id(d, with_sink, lane as nat, x as nat),
                ));
            }
        }
        let last = StageId(base + lane * depth + (depth - 1));
        proof {
            lemma_level_of(d, with_sink, lane as nat, (depth - 1) as nat);
        }
        if with_sink {
            let to_sink: Vec<StageId> = vec![StageId(1)];
            let ghost before = graph@;
            proof {
                assert(to_sink@ =~= seq![StageId(1)]);
                assert((Seq::<StageId>::empty() + to_sink@) =~= to_sink@);
                assert(to_sink@.no_duplicates());
                assert(edge_error(graph@, last, to_sink@) is None);
            }
            graph.add_edge(last, to_sink).unwrap();
            proof {
                assert(graph@[last.0 as int].destinations =~= seq![StageId(1)]);
                assert forall|i: int| 1 <= i < graph@.len() implies #[trigger] graph@[i]
                    == pipeline_stage(w, d, with_sink, i as nat) by {
                    if i != last.0 {
                        assert(graph@[i] == before[i]);
                    }
                }
            }
        }
        firsts.push(ids[0]);
        lanes.push(ids);
        lane = lane + 1;
        proof {
            assert(firsts@ =~= Seq::new(lane as nat, |k: int| worker_id(d, with_sink, k as nat, 0)));
        }
    }
    proof {
        assert(firsts@.no_duplicates()) by {
            assert forall|p: int, q: int| 0 <= p < q < firsts@.len() implies firsts@[p]
                != firsts@[q] by {
                lemma_lanes_ascend(d, p as nat, q as nat);
                lemma_lanes_ascend(d, q as nat, w);
            }
        }
        assert forall|p: int| 0 <= p < firsts@.len() implies (#[trigger] firsts@[p]).0
            < graph@.len() by {
            lemma_lanes_ascend(d, p as nat, w);
        }
        assert((Seq::<StageId>::empty() + firsts@) =~= firsts@);
        assert(edge_error(graph@, source, firsts@) is None);
    }
    let ghost before = graph@;
    graph.add_edge(source, firsts).unwrap();
    proof {
        assert(graph@[0].destinations =~= Seq::new(w, |k: int| worker_id(d, with_sink, k as nat, 0)));
        assert forall|i: int| 0 <= i < graph@.len() implies graph@[i] == pipeline_stage(
            w,
            d,
            with_sink,
            i as nat,
        ) by {
            if i != 0 {
                assert(graph@[i] == before[i]);
            }
        }
        assert(graph@ =~= pipeline_graph(w, d, with_sink));
    }
    Some(PipelineLayout { graph, source, sink, lanes })
}

} // verus!
