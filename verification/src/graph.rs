//! The dataflow graph: an arena of operators whose edges are indices, so that
//! cycles can be closed after the operators on them exist.

use crate::order::{strictly_before, Timestamp};
use crate::violation::ProtocolViolation;
use vstd::prelude::*;

verus! {

/// Who moves the records of an operator.
#[derive(Clone, Copy, Debug, PartialEq, Eq, Structural)]
pub enum Kind {
    /// The code that drives the computation pulls the input of the operator
    /// and gives its output.
    Operator,
    /// The worker passes every batch on as it is.
    Forward,
    /// The worker takes every batch off and keeps nothing.
    Sink,
}

/// One operator of the graph.
pub struct Node {
    pub kind: Kind,
    /// The steps by which a time moves forward when it passes through the
    /// operator: none for most, one or more where a loop is closed.
    pub summary: u64,
    /// For each input, the operator whose output feeds it, once connected.
    pub sources: Vec<Option<usize>>,
}

/// The output of an operator, as a handle that any number of consumers may
/// hold.
#[derive(Clone, Copy, Debug, PartialEq, Eq, Structural)]
pub struct Stream {
    pub node: usize,
}

/// The open end of a loop: the input of a feedback operator that is still
/// to be connected.
pub struct LoopHandle {
    node: usize,
}

impl LoopHandle {
    /// The feedback operator whose input this handle stands for.
    pub closed spec fn target(&self) -> usize {
        self.node
    }
}

/// A dataflow graph under construction.
pub struct Graph {
    nodes: Vec<Node>,
}

impl View for Graph {
    type V = Seq<Node>;

    /// The operators, in the order in which they were added.
    closed spec fn view(&self) -> Seq<Node> {
        self.nodes@
    }
}

/// The output of `from` feeds an input of `to`.
pub open spec fn edge(nodes: Seq<Node>, from: int, to: int) -> bool {
    0 <= to < nodes.len() && exists|p: int|
        0 <= p < nodes[to].sources@.len() && (#[trigger] nodes[to].sources@[p] matches Some(u)
            && u == from)
}

/// `path` names operators each of which feeds the next.
pub open spec fn walk(nodes: Seq<Node>, path: Seq<int>) -> bool {
    &&& path.len() >= 1
    &&& 0 <= path[0] < nodes.len()
    &&& forall|i: int| 0 <= i < path.len() - 1 ==> edge(nodes, #[trigger] path[i], path[i + 1])
}

/// The steps by which a time moves forward on its way from the output of the
/// first operator of `path` to the output of the last.
pub open spec fn cost(nodes: Seq<Node>, path: Seq<int>) -> nat
    decreases path.len(),
{
    if path.len() <= 1 {
        0
    } else {
        nodes[path[1]].summary as nat + cost(nodes, path.drop_first())
    }
}

/// `path` leads from `from` to `to`.
pub open spec fn journey(nodes: Seq<Node>, from: int, to: int, path: Seq<int>) -> bool {
    walk(nodes, path) && path[0] == from && path[path.len() - 1] == to
}

/// Every connected input names an operator of the graph.
pub open spec fn connected_within(nodes: Seq<Node>) -> bool {
    forall|b: int, p: int|
        0 <= b < nodes.len() && 0 <= p < nodes[b].sources@.len() ==> (
        #[trigger] nodes[b].sources@[p] matches Some(u) ==> u < nodes.len())
}

/// `column[from]` is the smallest number of steps that lead from `from` to
/// `to`, and `None` where no path of at most `u128::MAX` steps leads there.
pub open spec fn least_steps_to(nodes: Seq<Node>, to: int, column: Seq<Option<u128>>) -> bool {
    &&& column.len() == nodes.len()
    &&& forall|u: int, path: Seq<int>|
        0 <= u < column.len() && #[trigger] journey(nodes, u, to, path) && cost(nodes, path)
            <= u128::MAX ==> (column[u] matches Some(k) && k <= cost(nodes, path))
    &&& forall|u: int|
        0 <= u < column.len() ==> (#[trigger] column[u] matches Some(k) ==> exists|path: Seq<int>|
            journey(nodes, u, to, path) && cost(nodes, path) == k)
}

/// An input that is not fed by an earlier operator belongs to an operator that
/// moves time forward: the graph has no cycle but through a feedback
/// operator.
pub open spec fn loops_move_forward(nodes: Seq<Node>) -> bool {
    forall|b: int, p: int|
        0 <= b < nodes.len() && 0 <= p < nodes[b].sources@.len() ==> (
        #[trigger] nodes[b].sources@[p] matches Some(u) ==> u < b || nodes[b].summary > 0)
}

/// Only an operator that passes batches on can move time forward: the
/// operators that the driving code runs, and the sinks, have no summary.
pub open spec fn only_loops_step(nodes: Seq<Node>) -> bool {
    forall|b: int|
        0 <= b < nodes.len() ==> ((#[trigger] nodes[b]).kind != Kind::Forward ==> nodes[b].summary
            == 0)
}

/// The cost of a path is at least the summary of each operator on it but
/// the first.
pub proof fn lemma_cost_covers(nodes: Seq<Node>, path: Seq<int>, at: int)
    requires
        1 <= at < path.len(),
    ensures
        cost(nodes, path) >= nodes[path[at]].summary,
    decreases path.len(),
{
    if at > 1 {
        lemma_cost_covers(nodes, path.drop_first(), at - 1);
    }
}

/// A path that never passes through a feedback operator leads to a later
/// operator.
proof fn lemma_plain_path_ascends(nodes: Seq<Node>, path: Seq<int>)
    requires
        loops_move_forward(nodes),
        walk(nodes, path),
        forall|i: int| 1 <= i < path.len() ==> nodes[#[trigger] path[i]].summary == 0,
    ensures
        path[0] <= path[path.len() - 1],
        path.len() > 1 ==> path[0] < path[path.len() - 1],
    decreases path.len(),
{
    if path.len() > 1 {
        let rest = path.drop_first();
        assert(edge(nodes, path[0int], path[0int + 1]));
        assert forall|i: int| 0 <= i < rest.len() - 1 implies edge(
            nodes,
            #[trigger] rest[i],
            rest[i + 1],
        ) by {
            assert(edge(nodes, path[i + 1], path[i + 1 + 1]));
        }
        assert forall|i: int| 1 <= i < rest.len() implies nodes[#[trigger] rest[i]].summary == 0 by {
            assert(rest[i] == path[i + 1]);
        }
        assert(0 <= path[1] < nodes.len());
        lemma_plain_path_ascends(nodes, rest);
        let b = path[1];
        let p = choose|p: int|
            0 <= p < nodes[b].sources@.len() && (#[trigger] nodes[b].sources@[p] matches Some(v)
                && v == path[0]);
        assert(nodes[path[1]].summary == 0);
    }
}

/// Every loop moves time forward: a path that leads from an operator back to
/// itself takes at least one step, so that a record that goes round comes
/// back strictly later than it left.
pub proof fn every_loop_moves_time_forward<T: Timestamp>(nodes: Seq<Node>, path: Seq<int>, time: T)
    requires
        loops_move_forward(nodes),
        walk(nodes, path),
        path.len() > 1,
        path[0] == path[path.len() - 1],
    ensures
        cost(nodes, path) > 0,
        time.advanced(cost(nodes, path)) matches Some(later) ==> strictly_before(time, later),
{
    if forall|i: int| 1 <= i < path.len() ==> nodes[#[trigger] path[i]].summary == 0 {
        lemma_plain_path_ascends(nodes, path);
    } else {
        let i = choose|i: int| 1 <= i < path.len() && nodes[#[trigger] path[i]].summary != 0;
        lemma_cost_covers(nodes, path, i);
    }
    T::advanced_grows(time, cost(nodes, path));
}

/// What one can reach in one more step: the column holds the start, and is
/// closed under going back along an edge.
spec fn settled(nodes: Seq<Node>, to: int, column: Seq<Option<u128>>) -> bool {
    &&& column.len() == nodes.len()
    &&& column[to] == Some(0u128)
    &&& forall|b: int, p: int|
        0 <= b < nodes.len() && 0 <= p < nodes[b].sources@.len() ==> relaxed(
            nodes,
            column,
            b,
            #[trigger] nodes[b].sources@[p],
        )
}

/// The edge from `source` into `b` cannot improve the column.
spec fn relaxed(nodes: Seq<Node>, column: Seq<Option<u128>>, b: int, source: Option<usize>) -> bool {
    match (source, column[b]) {
        (Some(u), Some(k)) => nodes[b].summary + k <= u128::MAX ==> (column[u as int] matches Some(
            j,
        ) && j <= nodes[b].summary + k),
        _ => true,
    }
}

/// Every entry of the column is the cost of a path.
spec fn witnessed(nodes: Seq<Node>, to: int, column: Seq<Option<u128>>) -> bool {
    forall|u: int|
        0 <= u < column.len() ==> (#[trigger] column[u] matches Some(k) ==> exists|path: Seq<int>|
            journey(nodes, u, to, path) && cost(nodes, path) == k)
}

/// A settled column is at or below the cost of every path.
proof fn lemma_settled_is_least(nodes: Seq<Node>, to: int, column: Seq<Option<u128>>, path: Seq<int>)
    requires
        connected_within(nodes),
        0 <= to < nodes.len(),
        settled(nodes, to, column),
        walk(nodes, path),
        path[path.len() - 1] == to,
        cost(nodes, path) <= u128::MAX,
    ensures
        0 <= path[0] < nodes.len(),
        column[path[0]] matches Some(k) && k <= cost(nodes, path),
    decreases path.len(),
{
    if path.len() > 1 {
        let rest = path.drop_first();
        let u = path[0];
        let b = path[1];
        assert(edge(nodes, path[0int], path[0int + 1]));
        assert(rest[0] == b);
        assert forall|i: int| 0 <= i < rest.len() - 1 implies edge(
            nodes,
            #[trigger] rest[i],
            rest[i + 1],
        ) by {
            assert(edge(nodes, path[i + 1], path[i + 1 + 1]));
        }
        lemma_settled_is_least(nodes, to, column, rest);
        let p = choose|p: int|
            0 <= p < nodes[b].sources@.len() && (#[trigger] nodes[b].sources@[p] matches Some(v)
                && v == u);
        assert(relaxed(nodes, column, b, nodes[b].sources@[p]));
    }
}

/// The sum over a column of the steps in each entry, an empty entry counting
/// for more than any number of steps.
spec fn weight(column: Seq<Option<u128>>) -> int
    decreases column.len(),
{
    if column.len() == 0 {
        0
    } else {
        weight(column.drop_last()) + (match column.last() {
            Some(k) => k as int,
            None => u128::MAX + 1,
        })
    }
}

/// An entry that takes a number of steps weighs as much as the steps.
proof fn lemma_weight_update(column: Seq<Option<u128>>, at: int, k: u128)
    requires
        0 <= at < column.len(),
    ensures
        weight(column.update(at, Some(k))) == weight(column) - (match column[at] {
            Some(j) => j as int,
            None => u128::MAX + 1,
        }) + k,
        weight(column) >= 0,
    decreases column.len(),
{
    let after = column.update(at, Some(k));
    if at == column.len() - 1 {
        assert(after.drop_last() =~= column.drop_last());
        lemma_weight_nonnegative(column.drop_last());
    } else {
        assert(after.drop_last() =~= column.drop_last().update(at, Some(k)));
        lemma_weight_update(column.drop_last(), at, k);
    }
}

/// No column weighs less than nothing.
proof fn lemma_weight_nonnegative(column: Seq<Option<u128>>)
    ensures
        weight(column) >= 0,
    decreases column.len(),
{
    if column.len() > 0 {
        lemma_weight_nonnegative(column.drop_last());
    }
}

impl Graph {
    /// Every connected input names an operator of the graph, every loop
    /// passes through a feedback operator, and only operators that pass
    /// batches on move time forward.
    pub open spec fn wf(&self) -> bool {
        connected_within(self@) && loops_move_forward(self@) && only_loops_step(self@)
    }

    /// A graph without operators.
    pub fn new() -> (graph: Graph)
        ensures
            graph.wf(),
            graph@.len() == 0,
    {
        Graph { nodes: Vec::new() }
    }

    /// The number of operators.
    pub fn len(&self) -> (n: usize)
        ensures
            n == self@.len(),
    {
        self.nodes.len()
    }

    /// Whether every stream names an operator of the graph.
    fn knows(&self, inputs: &Vec<Stream>) -> (r: bool)
        ensures
            r == forall|p: int| 0 <= p < inputs.len() ==> (#[trigger] inputs[p]).node < self@.len(),
    {
        let mut p: usize = 0;
        while p < inputs.len()
            invariant
                p <= inputs.len(),
                forall|q: int| 0 <= q < p ==> (#[trigger] inputs[q]).node < self@.len(),
            decreases inputs.len() - p,
        {
            if inputs[p].node >= self.nodes.len() {
                return false;
            }
            p += 1;
        }
        true
    }

    /// Adds an operator of the given kind that consumes `inputs`.
    fn add(&mut self, kind: Kind, inputs: &Vec<Stream>) -> (r: Result<Stream, ProtocolViolation>)
        requires
            old(self).wf(),
        ensures
            final(self).wf(),
            r is Ok <==> forall|p: int|
                0 <= p < inputs.len() ==> (#[trigger] inputs[p]).node < old(self)@.len(),
            match r {
                Ok(stream) => {
                    &&& stream.node == old(self)@.len()
                    &&& final(self)@.len() == old(self)@.len() + 1
                    &&& final(self)@.take(old(self)@.len() as int) == old(self)@
                    &&& final(self)@[stream.node as int].kind == kind
                    &&& final(self)@[stream.node as int].summary == 0
                    &&& final(self)@[stream.node as int].sources@ == Seq::new(
                        inputs@.len(),
                        |p: int| Some(inputs[p].node),
                    )
                },
                Err(e) => e == ProtocolViolation::UnknownEndpoint && final(self)@ == old(self)@,
            },
    {
        if !self.knows(inputs) {
            return Err(ProtocolViolation::UnknownEndpoint);
        }
        let mut sources: Vec<Option<usize>> = Vec::new();
        let mut p: usize = 0;
        while p < inputs.len()
            invariant
                p <= inputs.len(),
                sources@.len() == p,
                forall|q: int| 0 <= q < p ==> #[trigger] sources@[q] == Some(inputs[q].node),
            decreases inputs.len() - p,
        {
            sources.push(Some(inputs[p].node));
            p += 1;
        }
        let node = self.nodes.len();
        self.nodes.push(Node { kind, summary: 0, sources });
        proof {
            assert(self@.take(old(self)@.len() as int) =~= old(self)@);
            assert(self@[node as int].sources@ =~= Seq::new(
                inputs@.len(),
                |p: int| Some(inputs[p].node),
            ));
            assert forall|b: int, q: int|
                0 <= b < self@.len() && 0 <= q < self@[b].sources@.len() implies (
            #[trigger] self@[b].sources@[q] matches Some(u) ==> u < self@.len() && (u < b
                || self@[b].summary > 0)) by {
                if b < node {
                    assert(self@[b] == old(self)@[b]);
                }
            }
        }
        Ok(Stream { node })
    }

    /// Adds an operator without inputs: a source of records.
    pub fn source(&mut self) -> (stream: Stream)
        requires
            old(self).wf(),
        ensures
            final(self).wf(),
            stream.node == old(self)@.len(),
            final(self)@.len() == old(self)@.len() + 1,
            final(self)@.take(old(self)@.len() as int) == old(self)@,
            final(self)@[stream.node as int].kind == Kind::Operator,
            final(self)@[stream.node as int].summary == 0,
            final(self)@[stream.node as int].sources@.len() == 0,
    {
        let inputs: Vec<Stream> = Vec::new();
        match self.add(Kind::Operator, &inputs) {
            Ok(stream) => stream,
            Err(_) => Stream { node: 0 },
        }
    }

    /// Adds an operator that the driving code runs: it consumes `inputs`, one
    /// input for each stream in turn. A stream that names no operator of the
    /// graph is refused.
    pub fn operator(&mut self, inputs: &Vec<Stream>) -> (r: Result<Stream, ProtocolViolation>)
        requires
            old(self).wf(),
        ensures
            final(self).wf(),
            r is Ok <==> forall|p: int|
                0 <= p < inputs.len() ==> (#[trigger] inputs[p]).node < old(self)@.len(),
            match r {
                Ok(stream) => {
                    &&& stream.node == old(self)@.len()
                    &&& final(self)@.len() == old(self)@.len() + 1
                    &&& final(self)@.take(old(self)@.len() as int) == old(self)@
                    &&& final(self)@[stream.node as int].kind == Kind::Operator
                    &&& final(self)@[stream.node as int].summary == 0
                    &&& final(self)@[stream.node as int].sources@ == Seq::new(
                        inputs@.len(),
                        |p: int| Some(inputs[p].node),
                    )
                },
                Err(e) => e == ProtocolViolation::UnknownEndpoint && final(self)@ == old(self)@,
            },
    {
        self.add(Kind::Operator, inputs)
    }

    /// Adds an operator that merges `inputs` into one stream: the worker
    /// passes on every batch of every input.
    pub fn concat(&mut self, inputs: &Vec<Stream>) -> (r: Result<Stream, ProtocolViolation>)
        requires
            old(self).wf(),
        ensures
            final(self).wf(),
            r is Ok <==> forall|p: int|
                0 <= p < inputs.len() ==> (#[trigger] inputs[p]).node < old(self)@.len(),
            match r {
                Ok(stream) => {
                    &&& stream.node == old(self)@.len()
                    &&& final(self)@.len() == old(self)@.len() + 1
                    &&& final(self)@.take(old(self)@.len() as int) == old(self)@
                    &&& final(self)@[stream.node as int].kind == Kind::Forward
                    &&& final(self)@[stream.node as int].summary == 0
                    &&& final(self)@[stream.node as int].sources@ == Seq::new(
                        inputs@.len(),
                        |p: int| Some(inputs[p].node),
                    )
                },
                Err(e) => e == ProtocolViolation::UnknownEndpoint && final(self)@ == old(self)@,
            },
    {
        self.add(Kind::Forward, inputs)
    }

    /// Adds a point at which the progress of `stream` can be observed: an
    /// operator that takes every batch off the stream.
    pub fn probe(&mut self, stream: Stream) -> (r: Result<Stream, ProtocolViolation>)
        requires
            old(self).wf(),
        ensures
            final(self).wf(),
            r is Ok <==> stream.node < old(self)@.len(),
            match r {
                Ok(probe) => {
                    &&& probe.node == old(self)@.len()
                    &&& final(self)@.len() == old(self)@.len() + 1
                    &&& final(self)@.take(old(self)@.len() as int) == old(self)@
                    &&& final(self)@[probe.node as int].kind == Kind::Sink
                    &&& final(self)@[probe.node as int].summary == 0
                    &&& final(self)@[probe.node as int].sources@ == seq![Some(stream.node)]
                },
                Err(e) => e == ProtocolViolation::UnknownEndpoint && final(self)@ == old(self)@,
            },
    {
        let mut inputs: Vec<Stream> = Vec::new();
        inputs.push(stream);
        let r = self.add(Kind::Sink, &inputs);
        proof {
            assert(inputs[0].node == stream.node);
            if r is Ok {
                assert(self@[old(self)@.len() as int].sources@ =~= seq![Some(stream.node)]);
            }
        }
        r
    }

    /// Opens a loop: adds a feedback operator whose output is the stream
    /// handed back, and whose input is connected later through the handle.
    /// Every record that passes through moves forward by `summary` steps,
    /// which must be one or more: a loop that gives its records back at the
    /// time at which it took them could never be seen to finish.
    pub fn feedback(&mut self, summary: u64) -> (r: Result<(LoopHandle, Stream), ProtocolViolation>)
        requires
            old(self).wf(),
        ensures
            final(self).wf(),
            r is Ok <==> summary > 0,
            match r {
                Ok((handle, stream)) => {
                    &&& stream.node == old(self)@.len()
                    &&& handle.target() == stream.node
                    &&& final(self)@.len() == old(self)@.len() + 1
                    &&& final(self)@.take(old(self)@.len() as int) == old(self)@
                    &&& final(self)@[stream.node as int].kind == Kind::Forward
                    &&& final(self)@[stream.node as int].summary == summary
                    &&& final(self)@[stream.node as int].sources@ == seq![None::<usize>]
                },
                Err(e) => e == ProtocolViolation::NonIncreasingFeedback && final(self)@ == old(self)@,
            },
    {
        if summary == 0 {
            return Err(ProtocolViolation::NonIncreasingFeedback);
        }
        let mut sources: Vec<Option<usize>> = Vec::new();
        sources.push(None);
        let node = self.nodes.len();
        self.nodes.push(Node { kind: Kind::Forward, summary, sources });
        proof {
            assert(self@.take(old(self)@.len() as int) =~= old(self)@);
            assert(self@[node as int].sources@ =~= seq![None::<usize>]);
            assert forall|b: int, q: int|
                0 <= b < self@.len() && 0 <= q < self@[b].sources@.len() implies (
            #[trigger] self@[b].sources@[q] matches Some(u) ==> u < self@.len() && (u < b
                || self@[b].summary > 0)) by {
                if b < node {
                    assert(self@[b] == old(self)@[b]);
                }
            }
        }
        Ok((LoopHandle { node }, Stream { node }))
    }

    /// Whether `handle` stands for the open input of a feedback operator of
    /// this graph.
    pub open spec fn open_loop(&self, handle: &LoopHandle) -> bool {
        &&& handle.target() < self@.len()
        &&& self@[handle.target() as int].summary > 0
        &&& self@[handle.target() as int].sources@ == seq![None::<usize>]
    }

    /// Closes a loop: the records of `stream` are fed back through the
    /// feedback operator that `handle` stands for. Refused where the stream
    /// names no operator of the graph, or the handle no open loop.
    pub fn connect_loop(&mut self, stream: Stream, handle: LoopHandle) -> (r: Result<
        (),
        ProtocolViolation,
    >)
        requires
            old(self).wf(),
        ensures
            final(self).wf(),
            r is Ok <==> stream.node < old(self)@.len() && old(self).open_loop(&handle),
            final(self)@.len() == old(self)@.len(),
            match r {
                Ok(_) => {
                    &&& forall|b: int|
                        0 <= b < old(self)@.len() && b != handle.target() ==> #[trigger] final(self)@[b] == old(self)@[b]
                    &&& final(self)@[handle.target() as int].kind == old(self)@[handle.target() as int].kind
                    &&& final(self)@[handle.target() as int].summary == old(self)@[handle.target() as int].summary
                    &&& final(self)@[handle.target() as int].sources@ == seq![Some(stream.node)]
                },
                Err(e) => e == ProtocolViolation::UnknownEndpoint && final(self)@ == old(self)@,
            },
    {
        let target = handle.node;
        if stream.node >= self.nodes.len() || target >= self.nodes.len() {
            return Err(ProtocolViolation::UnknownEndpoint);
        }
        if self.nodes[target].summary == 0 || self.nodes[target].sources.len() != 1
            || self.nodes[target].sources[0].is_some() {
            proof {
                if self.open_loop(&handle) {
                    assert(self@[target as int].sources@[0] == None::<usize>);
                }
            }
            return Err(ProtocolViolation::UnknownEndpoint);
        }
        assert(self@[target as int].sources@ =~= seq![None::<usize>]);
        let kind = self.nodes[target].kind;
        let summary = self.nodes[target].summary;
        let mut sources: Vec<Option<usize>> = Vec::new();
        sources.push(Some(stream.node));
        self.nodes[target] = Node { kind, summary, sources };
        proof {
            assert(self@[target as int].sources@ =~= seq![Some(stream.node)]);
            assert forall|b: int, q: int|
                0 <= b < self@.len() && 0 <= q < self@[b].sources@.len() implies (
            #[trigger] self@[b].sources@[q] matches Some(u) ==> u < self@.len() && (u < b
                || self@[b].summary > 0)) by {
                if b != target {
                    assert(self@[b] == old(self)@[b]);
                }
            }
        }
        Ok(())
    }

    /// Tries every edge once: where going back along an edge gives fewer
    /// steps to `to` than the column knows, the column takes them. Says
    /// whether anything changed.
    fn relax(&self, to: usize, column: &mut Vec<Option<u128>>) -> (changed: bool)
        requires
            self.wf(),
            to < self@.len(),
            old(column)@.len() == self@.len(),
            old(column)@[to as int] == Some(0u128),
            witnessed(self@, to as int, old(column)@),
        ensures
            final(column)@.len() == self@.len(),
            final(column)@[to as int] == Some(0u128),
            witnessed(self@, to as int, final(column)@),
            changed ==> weight(final(column)@) < weight(old(column)@),
            !changed ==> final(column)@ == old(column)@ && settled(
                self@,
                to as int,
                final(column)@,
            ),
    {
        let mut changed = false;
        let mut b: usize = 0;
        while b < self.nodes.len()
            invariant
                self.wf(),
                to < self@.len(),
                b <= self@.len(),
                column@.len() == self@.len(),
                column@[to as int] == Some(0u128),
                witnessed(self@, to as int, column@),
                weight(column@) <= weight(old(column)@),
                changed ==> weight(column@) < weight(old(column)@),
                !changed ==> column@ == old(column)@,
                !changed ==> forall|c: int, p: int|
                    0 <= c < b && 0 <= p < self@[c].sources@.len() ==> relaxed(
                        self@,
                        column@,
                        c,
                        #[trigger] self@[c].sources@[p],
                    ),
            decreases self@.len() - b,
        {
            let mut p: usize = 0;
            while p < self.nodes[b].sources.len()
                invariant
                    self.wf(),
                    to < self@.len(),
                    b < self@.len(),
                    p <= self@[b as int].sources@.len(),
                    column@.len() == self@.len(),
                    column@[to as int] == Some(0u128),
                    witnessed(self@, to as int, column@),
                    weight(column@) <= weight(old(column)@),
                    changed ==> weight(column@) < weight(old(column)@),
                    !changed ==> column@ == old(column)@,
                    !changed ==> forall|c: int, q: int|
                        0 <= c < b && 0 <= q < self@[c].sources@.len() ==> relaxed(
                            self@,
                            column@,
                            c,
                            #[trigger] self@[c].sources@[q],
                        ),
                    !changed ==> forall|q: int|
                        0 <= q < p ==> relaxed(
                            self@,
                            column@,
                            b as int,
                            #[trigger] self@[b as int].sources@[q],
                        ),
                decreases self@[b as int].sources@.len() - p,
            {
                let source = self.nodes[b].sources[p];
                if let Some(u) = source {
                    if let Some(k) = column[b] {
                        if let Some(through) = (self.nodes[b].summary as u128).checked_add(k) {
                            let better = match column[u] {
                                Some(j) => through < j,
                                None => true,
                            };
                            if better {
                                proof {
                                    let prior = column@;
                                    lemma_weight_update(prior, u as int, through);
                                    let tail = choose|path: Seq<int>|
                                        journey(self@, b as int, to as int, path) && cost(
                                            self@,
                                            path,
                                        ) == k;
                                    let path = seq![u as int] + tail;
                                    assert(path.drop_first() =~= tail);
                                    assert(path[1] == b);
                                    assert(edge(self@, u as int, b as int));
                                    assert forall|i: int| 0 <= i < path.len() - 1 implies edge(
                                        self@,
                                        #[trigger] path[i],
                                        path[i + 1],
                                    ) by {
                                        if i > 0 {
                                            assert(edge(self@, tail[i - 1], tail[i - 1 + 1]));
                                        }
                                    }
                                    assert(journey(self@, u as int, to as int, path));
                                    assert(cost(self@, path) == through);
                                }
                                let ghost prior = column@;
                                column[u] = Some(through);
                                changed = true;
                                proof {
                                    assert(column@ == prior.update(u as int, Some(through)));
                                    assert forall|v: int| 0 <= v < column@.len() implies (
                                    #[trigger] column@[v] matches Some(k) ==> exists|path: Seq<int>|
                                        journey(self@, v, to as int, path) && cost(self@, path)
                                            == k) by {
                                        if v != u {
                                            assert(column@[v] == prior[v]);
                                        }
                                    }
                                }
                            }
                        }
                    }
                }
                p += 1;
            }
            b += 1;
        }
        changed
    }

    /// The smallest number of steps from every operator to `to`.
    fn steps_to(&self, to: usize) -> (column: Vec<Option<u128>>)
        requires
            self.wf(),
            to < self@.len(),
        ensures
            least_steps_to(self@, to as int, column@),
            column@[to as int] == Some(0u128),
    {
        let mut column: Vec<Option<u128>> = Vec::new();
        while column.len() < self.nodes.len()
            invariant
                column@.len() <= self@.len(),
                forall|u: int| 0 <= u < column@.len() ==> #[trigger] column@[u] == None::<u128>,
            decreases self@.len() - column@.len(),
        {
            column.push(None);
        }
        column[to] = Some(0);
        proof {
            let path = seq![to as int];
            assert(journey(self@, to as int, to as int, path));
            assert(cost(self@, path) == 0);
        }
        loop
            invariant
                self.wf(),
                to < self@.len(),
                column@.len() == self@.len(),
                column@[to as int] == Some(0u128),
                witnessed(self@, to as int, column@),
            ensures
                column@.len() == self@.len(),
                column@[to as int] == Some(0u128),
                witnessed(self@, to as int, column@),
                settled(self@, to as int, column@),
            decreases weight(column@),
        {
            let changed = self.relax(to, &mut column);
            if !changed {
                break;
            }
            proof {
                lemma_weight_nonnegative(column@);
            }
        }
        proof {
            assert forall|u: int, path: Seq<int>|
                0 <= u < column@.len() && #[trigger] journey(self@, u, to as int, path) && cost(
                    self@,
                    path,
                ) <= u128::MAX implies (column@[u] matches Some(k) && k <= cost(self@, path)) by {
                lemma_settled_is_least(self@, to as int, column@, path);
            }
        }
        column
    }

    /// Closes the graph to changes and works out, for every pair of
    /// operators, the smallest number of steps that lead from one to the
    /// other.
    pub fn seal(self) -> (topology: Topology)
        requires
            self.wf(),
        ensures
            topology.wf(),
            topology.nodes() == self@,
    {
        let mut table: Vec<Vec<Option<u128>>> = Vec::new();
        let mut x: usize = 0;
        while x < self.nodes.len()
            invariant
                self.wf(),
                x <= self@.len(),
                table@.len() == x,
                forall|y: int|
                    0 <= y < x ==> least_steps_to(self@, y, (#[trigger] table@[y])@) && table@[y]@[y]
                        == Some(0u128),
            decreases self@.len() - x,
        {
            let column = self.steps_to(x);
            table.push(column);
            x += 1;
        }
        Topology { nodes: self.nodes, steps: table }
    }
}

/// A finished dataflow graph, together with the smallest number of steps
/// that lead from each operator to each other.
pub struct Topology {
    nodes: Vec<Node>,
    steps: Vec<Vec<Option<u128>>>,
}

impl Topology {
    /// The operators of the graph.
    pub closed spec fn nodes(&self) -> Seq<Node> {
        self.nodes@
    }

    /// The smallest number of steps by which a time moves forward on its way
    /// from the output of `from` to the output of `to`, if there is a way.
    pub closed spec fn least(&self, from: int, to: int) -> Option<u128> {
        self.steps@[to]@[from]
    }

    /// The graph is connected within itself, every loop passes through a
    /// feedback operator, and the steps are the least for every pair of
    /// operators.
    pub closed spec fn wf(&self) -> bool {
        &&& connected_within(self.nodes@)
        &&& loops_move_forward(self.nodes@)
        &&& only_loops_step(self.nodes@)
        &&& self.steps@.len() == self.nodes@.len()
        &&& forall|x: int|
            0 <= x < self.steps@.len() ==> least_steps_to(
                self.nodes@,
                x,
                (#[trigger] self.steps@[x])@,
            ) && self.steps@[x]@[x] == Some(0u128)
    }

    /// Every connected input names an operator of the graph, every loop
    /// passes through a feedback operator, and only operators that pass
    /// batches on move time forward.
    pub proof fn lemma_connected_within(&self)
        requires
            self.wf(),
        ensures
            connected_within(self.nodes()),
            loops_move_forward(self.nodes()),
            only_loops_step(self.nodes()),
    {
    }

    /// No steps lead from an operator to itself.
    pub proof fn lemma_least_to_self(&self, node: int)
        requires
            self.wf(),
            0 <= node < self.nodes().len(),
        ensures
            self.least(node, node) == Some(0u128),
    {
        assert(self.steps@[node]@[node] == Some(0u128));
    }

    /// `least` is at or below the cost of every path.
    pub proof fn lemma_least_is_lower_bound(&self, from: int, to: int, path: Seq<int>)
        requires
            self.wf(),
            0 <= to < self.nodes().len(),
            journey(self.nodes(), from, to, path),
            cost(self.nodes(), path) <= u128::MAX,
        ensures
            self.least(from, to) matches Some(k) && k <= cost(self.nodes(), path),
    {
        assert(least_steps_to(self.nodes@, to, self.steps@[to]@));
    }

    /// `least` is the cost of a path.
    pub proof fn lemma_least_is_reached(&self, from: int, to: int) -> (path: Seq<int>)
        requires
            self.wf(),
            0 <= from < self.nodes().len(),
            0 <= to < self.nodes().len(),
            self.least(from, to) is Some,
        ensures
            journey(self.nodes(), from, to, path),
            cost(self.nodes(), path) == self.least(from, to).unwrap(),
    {
        assert(least_steps_to(self.nodes@, to, self.steps@[to]@));
        let column = self.steps@[to]@;
        assert(column[from] is Some);
        choose|path: Seq<int>|
            journey(self.nodes@, from, to, path) && cost(self.nodes@, path) == column[from].unwrap()
    }

    /// Going through one more operator first cannot take fewer steps than
    /// the least: where `from` feeds `next`, the steps from `from` to `to`
    /// are at most those of `next` and those from `next` to `to` together.
    pub proof fn lemma_least_through(&self, from: int, next: int, to: int)
        requires
            self.wf(),
            0 <= from < self.nodes().len(),
            0 <= to < self.nodes().len(),
            edge(self.nodes(), from, next),
            self.least(next, to) is Some,
            self.nodes()[next].summary + self.least(next, to).unwrap() <= u128::MAX,
        ensures
            self.least(from, to) matches Some(k) && k <= self.nodes()[next].summary + self.least(
                next,
                to,
            ).unwrap(),
    {
        let tail = self.lemma_least_is_reached(next, to);
        let path = seq![from] + tail;
        assert(path.drop_first() =~= tail);
        assert(path[1] == next);
        assert forall|i: int| 0 <= i < path.len() - 1 implies edge(
            self.nodes(),
            #[trigger] path[i],
            path[i + 1],
        ) by {
            if i > 0 {
                assert(edge(self.nodes(), tail[i - 1], tail[i - 1 + 1]));
            }
        }
        assert(journey(self.nodes(), from, to, path));
        self.lemma_least_is_lower_bound(from, to, path);
    }

    /// The number of operators.
    pub fn len(&self) -> (n: usize)
        ensures
            n == self.nodes().len(),
    {
        self.nodes.len()
    }

    /// The kind of an operator.
    pub fn kind(&self, node: usize) -> (k: Kind)
        requires
            node < self.nodes().len(),
        ensures
            k == self.nodes()[node as int].kind,
    {
        self.nodes[node].kind
    }

    /// The steps by which a time moves forward when it passes through an
    /// operator.
    pub fn summary(&self, node: usize) -> (s: u64)
        requires
            node < self.nodes().len(),
        ensures
            s == self.nodes()[node as int].summary,
    {
        self.nodes[node].summary
    }

    /// The number of inputs of an operator.
    pub fn inputs(&self, node: usize) -> (n: usize)
        requires
            node < self.nodes().len(),
        ensures
            n == self.nodes()[node as int].sources@.len(),
    {
        self.nodes[node].sources.len()
    }

    /// The operator that feeds an input, if the input is connected.
    pub fn source(&self, node: usize, input: usize) -> (s: Option<usize>)
        requires
            node < self.nodes().len(),
            input < self.nodes()[node as int].sources@.len(),
        ensures
            s == self.nodes()[node as int].sources@[input as int],
    {
        self.nodes[node].sources[input]
    }

    /// The smallest number of steps from the output of `from` to the output
    /// of `to`.
    pub fn steps(&self, from: usize, to: usize) -> (k: Option<u128>)
        requires
            self.wf(),
            from < self.nodes().len(),
            to < self.nodes().len(),
        ensures
            k == self.least(from as int, to as int),
    {
        assert(least_steps_to(self.nodes@, to as int, self.steps@[to as int]@));
        self.steps[to][from]
    }
}

} // verus!
