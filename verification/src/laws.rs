use crate::graph::node_index;
use crate::graph::BindingBehavior;
use crate::graph::GraphView;
use crate::graph::Node;
use crate::graph::NodeBehavior;
use crate::preprocess::carried;
use crate::preprocess::entry_planned;
use crate::preprocess::has_fresh_input;
use crate::preprocess::input_fresh;
use crate::preprocess::lemma_own_index;
use crate::preprocess::planned;
use crate::preprocess::ran_before;
use crate::preprocess::runs;
use crate::runtime_graph::entry_index;
use crate::runtime_graph::has_entry;
use crate::runtime_graph::lemma_entry_index_exists;
use crate::runtime_graph::RuntimeNode;
use crate::topology::binds;
use crate::topology::counts;
use crate::topology::edge;
use crate::topology::is_path;
use crate::topology::lacks_input;
use crate::topology::lemma_reached_step;
use crate::topology::lemma_starved_step;
use crate::topology::lemma_starved_upstream;
use crate::topology::reached;
use crate::topology::starved;
use crate::validate::input_sound;
use crate::validate::node_sound;
use crate::validate::valid;
use vstd::prelude::*;

verus! {

/// Whether some input of `node` is bound by a binding that asks for a value
/// every cycle.
pub open spec fn has_always_input(node: Node) -> bool {
    exists|i: int|
        0 <= i < node.inputs@.len() && (#[trigger] node.inputs@[i]).binding is Some
            && node.inputs@[i].binding->0.behavior == BindingBehavior::Always
}

/// The entry of a plan for a reached node is the entry at the position that
/// the identifier of the node leads to, and it holds what was decided for
/// that node.
pub proof fn lemma_entry_of(g: GraphView, prev: Seq<RuntimeNode>, next: Seq<RuntimeNode>, k: int)
    requires
        valid(g),
        planned(g, prev, next),
        reached(g.nodes, false, k),
    ensures
        0 <= k < g.nodes.len(),
        has_entry(next, g.nodes[k].self_id),
        0 <= entry_index(next, g.nodes[k].self_id) < next.len(),
        crate::preprocess::node_planned(
            g.nodes,
            prev,
            k,
            next[entry_index(next, g.nodes[k].self_id)],
        ),
{
    crate::topology::lemma_reached_cases(g.nodes, false, k);
    let id = g.nodes[k].self_id;
    lemma_entry_index_exists(next, id);
    let e = entry_index(next, id);
    assert(entry_planned(g.nodes, prev, next, e));
    lemma_own_index(g, k);
}

/// In the first cycle, with nothing cached, every node of the plan that is
/// not starved of a required input has to run and counts as having outputs
/// from then on; a starved node does neither. No entry holds a value yet.
pub proof fn law_first_cycle(g: GraphView, next: Seq<RuntimeNode>)
    requires
        valid(g),
        planned(g, Seq::<RuntimeNode>::empty(), next),
    ensures
        forall|j: int|
            0 <= j < next.len() ==> {
                &&& (#[trigger] next[j]).should_execute == !next[j].has_missing_inputs
                &&& next[j].has_outputs == next[j].should_execute
                &&& next[j].output_values@.len() == 0
            },
{
    let prev = Seq::<RuntimeNode>::empty();
    assert forall|j: int| 0 <= j < next.len() implies {
        &&& (#[trigger] next[j]).should_execute == !next[j].has_missing_inputs
        &&& next[j].has_outputs == next[j].should_execute
        &&& next[j].output_values@.len() == 0
    } by {
        assert(entry_planned(g.nodes, prev, next, j));
        let k = node_index(g.nodes, next[j].node_id);
        assert(!has_entry(prev, g.nodes[k].self_id));
        assert(!carried(g.nodes, prev, k));
    }
}

/// With the same graph, the cycle after the first decides thus: a node runs
/// exactly if it is not starved and is a sink, or is asked for a value every
/// cycle and is active or has an input that is bound by a binding that asks
/// for a value every cycle.
pub proof fn law_second_cycle(g: GraphView, first: Seq<RuntimeNode>, second: Seq<RuntimeNode>)
    requires
        valid(g),
        planned(g, Seq::<RuntimeNode>::empty(), first),
        planned(g, first, second),
    ensures
        forall|j: int|
            0 <= j < second.len() ==> ((#[trigger] second[j]).should_execute <==> {
                let node = g.nodes[node_index(g.nodes, second[j].node_id)];
                &&& !second[j].has_missing_inputs
                &&& (node.is_output || (second[j].edge_behavior == BindingBehavior::Always && (
                node.behavior == NodeBehavior::Active || has_always_input(node))))
            }),
{
    let none = Seq::<RuntimeNode>::empty();
    assert forall|j: int| 0 <= j < second.len() implies ((#[trigger] second[j]).should_execute <==> {
        let node = g.nodes[node_index(g.nodes, second[j].node_id)];
        &&& !second[j].has_missing_inputs
        &&& (node.is_output || (second[j].edge_behavior == BindingBehavior::Always && (node.behavior
            == NodeBehavior::Active || has_always_input(node))))
    }) by {
        assert(entry_planned(g.nodes, first, second, j));
        let k = node_index(g.nodes, second[j].node_id);
        let node = g.nodes[k];
        lemma_entry_of(g, none, first, k);
        let e = entry_index(first, node.self_id);
        assert(!has_entry(none, node.self_id));
        assert(!carried(g.nodes, none, k));
        assert(first[e].has_outputs == !starved(g.nodes, k));
        if !starved(g.nodes, k) {
            assert(carried(g.nodes, first, k) == !node.is_output);
            if has_always_input(node) {
                let i = choose|i: int|
                    0 <= i < node.inputs@.len() && (#[trigger] node.inputs@[i]).binding is Some
                        && node.inputs@[i].binding->0.behavior == BindingBehavior::Always;
                lemma_producer_ran(g, first, k, i);
                assert(input_fresh(first, node.inputs@[i]));
            }
            if has_fresh_input(first, node) {
                let i = choose|i: int|
                    0 <= i < node.inputs@.len() && input_fresh(first, #[trigger] node.inputs@[i]);
                assert(node.inputs@[i].binding is Some);
            }
        }
    }
}

/// In the first cycle the producer of a bound input of a reached node that
/// is not starved has to run.
proof fn lemma_producer_ran(g: GraphView, first: Seq<RuntimeNode>, k: int, i: int)
    requires
        valid(g),
        planned(g, Seq::<RuntimeNode>::empty(), first),
        reached(g.nodes, false, k),
        !starved(g.nodes, k),
        0 <= k < g.nodes.len(),
        0 <= i < g.nodes[k].inputs@.len(),
        g.nodes[k].inputs@[i].binding is Some,
    ensures
        ran_before(first, g.nodes[k].inputs@[i].binding->0.output_node_id),
{
    let none = Seq::<RuntimeNode>::empty();
    let id = g.nodes[k].inputs@[i].binding->0.output_node_id;
    assert(node_sound(g, k));
    assert(input_sound(g.nodes, g.nodes[k].inputs@[i]));
    crate::graph::lemma_node_index_exists(g.nodes, id);
    let p = node_index(g.nodes, id);
    assert(binds(g.nodes, k, i, p) && counts(g.nodes, false, k, i));
    assert(edge(g.nodes, false, k, p));
    lemma_reached_step(g.nodes, false, k, p);
    if starved(g.nodes, p) {
        lemma_starved_step(g.nodes, k, p);
    }
    lemma_entry_of(g, none, first, p);
    assert(!has_entry(none, g.nodes[p].self_id));
    assert(!carried(g.nodes, none, p));
}

/// Where a path of bindings leads from a node of the plan to a node that
/// lacks a required input, the entry of the first has missing inputs: a
/// missing input reaches every node that consumes it, directly or through
/// others.
pub proof fn law_missing_inputs_spread(
    g: GraphView,
    prev: Seq<RuntimeNode>,
    next: Seq<RuntimeNode>,
    path: Seq<int>,
)
    requires
        valid(g),
        planned(g, prev, next),
        is_path(g.nodes, false, path),
        reached(g.nodes, false, path[0]),
        lacks_input(g.nodes[path.last()]),
    ensures
        has_entry(next, g.nodes[path[0]].self_id),
        next[entry_index(next, g.nodes[path[0]].self_id)].has_missing_inputs,
        !next[entry_index(next, g.nodes[path[0]].self_id)].should_execute,
{
    let last = seq![path.last()];
    assert(is_path(g.nodes, false, last));
    assert(last[0] == path.last() && last.last() == path.last());
    assert(starved(g.nodes, path.last()));
    lemma_starved_upstream(g.nodes, path);
    lemma_entry_of(g, prev, next, path[0]);
}

/// A node that no sink reaches has no entry in the plan.
pub proof fn law_unreached_absent(
    g: GraphView,
    prev: Seq<RuntimeNode>,
    next: Seq<RuntimeNode>,
    k: int,
)
    requires
        valid(g),
        planned(g, prev, next),
        0 <= k < g.nodes.len(),
        !reached(g.nodes, false, k),
    ensures
        !has_entry(next, g.nodes[k].self_id),
{
    if has_entry(next, g.nodes[k].self_id) {
        let j = choose|j: int| 0 <= j < next.len() && next[j].node_id == g.nodes[k].self_id;
        assert(entry_planned(g.nodes, prev, next, j));
        lemma_own_index(g, k);
    }
}

/// The edge behaviour of an entry is `Always` exactly if a path of bindings
/// that all ask for a value every cycle leads from a sink to its node.
pub proof fn law_edge_behavior(
    g: GraphView,
    prev: Seq<RuntimeNode>,
    next: Seq<RuntimeNode>,
    j: int,
)
    requires
        valid(g),
        planned(g, prev, next),
        0 <= j < next.len(),
    ensures
        next[j].edge_behavior == BindingBehavior::Always <==> exists|path: Seq<int>|
            #[trigger] is_path(g.nodes, true, path) && g.nodes[path[0]].is_output && path.last()
                == node_index(g.nodes, next[j].node_id),
{
    assert(entry_planned(g.nodes, prev, next, j));
}

/// Whether two entries stand for the same node and hold the same decisions
/// and the same cached values.
pub open spec fn same_entry(a: RuntimeNode, b: RuntimeNode) -> bool {
    &&& a.node_id == b.node_id
    &&& a.name == b.name
    &&& a.behavior == b.behavior
    &&& a.is_output == b.is_output
    &&& a.should_execute == b.should_execute
    &&& a.has_outputs == b.has_outputs
    &&& a.has_missing_inputs == b.has_missing_inputs
    &&& a.edge_behavior == b.edge_behavior
    &&& a.total_binding_count == b.total_binding_count
    &&& a.output_values@ == b.output_values@
    &&& a.failure == b.failure
}

/// The plan is a function of the graph and of the previous plan: two plans
/// of one graph and one previous plan hold the same entries in the same
/// order.
pub proof fn law_same_plan(
    g: GraphView,
    prev: Seq<RuntimeNode>,
    one: Seq<RuntimeNode>,
    other: Seq<RuntimeNode>,
)
    requires
        planned(g, prev, one),
        planned(g, prev, other),
    ensures
        one.len() == other.len(),
        forall|j: int| 0 <= j < one.len() ==> same_entry(#[trigger] one[j], other[j]),
{
    assert(crate::preprocess::in_plan_order(g.nodes, one));
    assert(crate::preprocess::in_plan_order(g.nodes, other));
    assert forall|j: int| 0 <= j < one.len() implies same_entry(#[trigger] one[j], other[j]) by {
        assert(entry_planned(g.nodes, prev, one, j));
        assert(entry_planned(g.nodes, prev, other, j));
        assert(one[j].node_id == other[j].node_id);
    }
}

/// Every entry of a plan stands behind the entries of the nodes that its
/// node consumes.
pub proof fn law_producers_first(
    g: GraphView,
    prev: Seq<RuntimeNode>,
    next: Seq<RuntimeNode>,
    j: int,
    i: int,
)
    requires
        valid(g),
        planned(g, prev, next),
        0 <= j < next.len(),
        0 <= i < g.nodes[node_index(g.nodes, next[j].node_id)].inputs@.len(),
        g.nodes[node_index(g.nodes, next[j].node_id)].inputs@[i].binding is Some,
    ensures
        has_entry(
            next,
            g.nodes[node_index(g.nodes, next[j].node_id)].inputs@[i].binding->0.output_node_id,
        ),
        entry_index(
            next,
            g.nodes[node_index(g.nodes, next[j].node_id)].inputs@[i].binding->0.output_node_id,
        ) < j,
{
    assert(entry_planned(g.nodes, prev, next, j));
    let k = node_index(g.nodes, next[j].node_id);
    crate::graph::lemma_node_index_exists(g.nodes, next[j].node_id);
    let id = g.nodes[k].inputs@[i].binding->0.output_node_id;
    assert(node_sound(g, k));
    assert(input_sound(g.nodes, g.nodes[k].inputs@[i]));
    crate::graph::lemma_node_index_exists(g.nodes, id);
    let p = node_index(g.nodes, id);
    assert(binds(g.nodes, k, i, p) && counts(g.nodes, false, k, i));
    assert(edge(g.nodes, false, k, p));
    assert(crate::preprocess::entry_before(next, j, g.nodes[p].self_id));
    let q = choose|q: int| 0 <= q < j && q < next.len() && (#[trigger] next[q]).node_id == id;
    lemma_entry_index_exists(next, id);
    let e = entry_index(next, id);
    if e > q {
        assert(next[q].node_id != id);
    }
}

} // verus!
