use crate::graph::find_node;
use crate::graph::has_node;
use crate::graph::lemma_node_index;
use crate::graph::node_at;
use crate::graph::node_index;
use crate::graph::BindingBehavior;
use crate::graph::Graph;
use crate::graph::GraphView;
use crate::graph::Input;
use crate::graph::Node;
use crate::graph::NodeBehavior;
use crate::ident::Id;
use crate::invoke::Value;
use crate::runtime_graph::entry_index;
use crate::runtime_graph::find_entry;
use crate::runtime_graph::has_entry;
use crate::runtime_graph::NodeContext;
use crate::runtime_graph::RuntimeGraph;
use crate::runtime_graph::RuntimeNode;
use crate::topology::acyclic;
use crate::topology::arrange;
use crate::topology::binds;
use crate::topology::closed_under_edges;
use crate::topology::counts;
use crate::topology::distinct_positions;
use crate::topology::edge;
use crate::topology::lacks_input;
use crate::topology::lemma_closed_holds_reached;
use crate::topology::lemma_distinct_bounded;
use crate::topology::lemma_reached_sink;
use crate::topology::lemma_reached_step;
use crate::topology::lemma_reached_weaken;
use crate::topology::lemma_starved_unfold;
use crate::topology::listed;
use crate::topology::listed_before;
use crate::topology::producers_first;
use crate::topology::reached;
use crate::topology::same_members;
use crate::topology::starved;
use crate::validate::repeats_id;
use crate::validate::valid;
use vstd::prelude::*;

verus! {

/// Whether the previous cycle decided that the node `id` had to run.
pub open spec fn ran_before(prev: Seq<RuntimeNode>, id: Id) -> bool {
    has_entry(prev, id) && prev[entry_index(prev, id)].should_execute
}

/// Whether the previous cycle left the node `id` with output values.
pub open spec fn cached_before(prev: Seq<RuntimeNode>, id: Id) -> bool {
    has_entry(prev, id) && prev[entry_index(prev, id)].has_outputs
}

/// Whether the node at `k` starts the cycle with cached output values: a
/// sink never does, another node does if the previous cycle left it some.
pub open spec fn carried(nodes: Seq<Node>, prev: Seq<RuntimeNode>, k: int) -> bool {
    !nodes[k].is_output && cached_before(prev, nodes[k].self_id)
}

/// Whether `input` is bound, asks for a value every cycle, and its producer
/// had to run in the previous cycle.
pub open spec fn input_fresh(prev: Seq<RuntimeNode>, input: Input) -> bool {
    &&& input.binding is Some
    &&& input.binding->0.behavior == BindingBehavior::Always
    &&& ran_before(prev, input.binding->0.output_node_id)
}

/// Whether some input of `node` is fresh.
pub open spec fn has_fresh_input(prev: Seq<RuntimeNode>, node: Node) -> bool {
    exists|i: int| 0 <= i < node.inputs@.len() && input_fresh(prev, #[trigger] node.inputs@[i])
}

/// Whether the node at `k` has to run in the cycle that follows `prev`.
///
/// A node that is starved of a required input never runs. Otherwise it runs
/// if it has nothing cached. With a cached value it runs only if some sink
/// asks for a value every cycle along a path to it, and then if it is active,
/// or if it is passive and one of its inputs is fresh.
pub open spec fn runs(nodes: Seq<Node>, prev: Seq<RuntimeNode>, k: int) -> bool {
    &&& !starved(nodes, k)
    &&& (!carried(nodes, prev, k) || (reached(nodes, true, k) && (nodes[k].behavior
        == NodeBehavior::Active || has_fresh_input(prev, nodes[k]))))
}

/// How many of the first `upto` of `inputs` are bound to the node `id`.
pub open spec fn bindings_to(inputs: Seq<Input>, id: Id, upto: int) -> nat
    decreases upto,
{
    if upto <= 0 {
        0
    } else {
        bindings_to(inputs, id, upto - 1) + if inputs[upto - 1].binding is Some && inputs[upto
            - 1].binding->0.output_node_id == id {
            1nat
        } else {
            0nat
        }
    }
}

/// How many inputs of the reached nodes among the first `upto` nodes are
/// bound to the node `id`.
pub open spec fn consumers_of(nodes: Seq<Node>, id: Id, upto: int) -> nat
    decreases upto,
{
    if upto <= 0 {
        0
    } else {
        consumers_of(nodes, id, upto - 1) + if reached(nodes, false, upto - 1) {
            bindings_to(nodes[upto - 1].inputs@, id, nodes[upto - 1].inputs@.len() as int)
        } else {
            0nat
        }
    }
}

/// The number of bindings of reached nodes that name `id`; a number beyond
/// `u32::MAX` counts as `u32::MAX`.
pub open spec fn binding_count(nodes: Seq<Node>, id: Id) -> u32 {
    let exact = consumers_of(nodes, id, nodes.len() as int);
    if exact > u32::MAX {
        u32::MAX
    } else {
        exact as u32
    }
}

/// Whether `entry` holds what the cycle that follows `prev` decides for the
/// node at `k`.
pub open spec fn node_decided(
    nodes: Seq<Node>,
    prev: Seq<RuntimeNode>,
    k: int,
    entry: RuntimeNode,
) -> bool {
    let id = nodes[k].self_id;
    &&& entry.node_id == id
    &&& entry.name == nodes[k].name
    &&& entry.behavior == nodes[k].behavior
    &&& entry.is_output == nodes[k].is_output
    &&& entry.has_missing_inputs == starved(nodes, k)
    &&& entry.edge_behavior == if reached(nodes, true, k) {
        BindingBehavior::Always
    } else {
        BindingBehavior::Once
    }
    &&& entry.should_execute == runs(nodes, prev, k)
    &&& entry.has_outputs == (carried(nodes, prev, k) || runs(nodes, prev, k))
    &&& entry.total_binding_count == binding_count(nodes, id)
    &&& entry.failure is None
}

/// Whether `entry` holds what goes over to it from `prev`: unless its node
/// is a sink, the output values that the entry that stood for its node had.
/// What had no outputs in `prev` starts with none.
pub open spec fn node_kept(prev: Seq<RuntimeNode>, entry: RuntimeNode) -> bool {
    let id = entry.node_id;
    entry.output_values@ == if !entry.is_output && cached_before(prev, id) {
        prev[entry_index(prev, id)].output_values@
    } else {
        Seq::<Value>::empty()
    }
}

/// The contexts among `contexts` that belong to a node of `nodes`, in order.
pub open spec fn contexts_of(nodes: Seq<Node>, contexts: Seq<NodeContext>) -> Seq<NodeContext>
    decreases contexts.len(),
{
    if contexts.len() == 0 {
        contexts
    } else if has_node(nodes, contexts.last().node_id) {
        contexts_of(nodes, contexts.drop_last()).push(contexts.last())
    } else {
        contexts_of(nodes, contexts.drop_last())
    }
}

/// Whether `entry` is what the cycle that follows `prev` decides and keeps
/// for the node at `k`.
pub open spec fn node_planned(
    nodes: Seq<Node>,
    prev: Seq<RuntimeNode>,
    k: int,
    entry: RuntimeNode,
) -> bool {
    &&& node_decided(nodes, prev, k, entry)
    &&& node_kept(prev, entry)
}

/// Whether entry `j` of `next` stands for a reached node of the graph and
/// holds what was decided for it.
pub open spec fn entry_planned(
    nodes: Seq<Node>,
    prev: Seq<RuntimeNode>,
    next: Seq<RuntimeNode>,
    j: int,
) -> bool {
    &&& has_node(nodes, next[j].node_id)
    &&& reached(nodes, false, node_index(nodes, next[j].node_id))
    &&& node_planned(nodes, prev, node_index(nodes, next[j].node_id), next[j])
}

/// Whether an entry of `next` before position `j` stands for the node `id`.
pub open spec fn entry_before(next: Seq<RuntimeNode>, j: int, id: Id) -> bool {
    exists|q: int| 0 <= q < j && q < next.len() && (#[trigger] next[q]).node_id == id
}

/// Whether the entries of `next` stand for the nodes of `plan_order`, one
/// for one and in that order.
pub open spec fn in_plan_order(nodes: Seq<Node>, next: Seq<RuntimeNode>) -> bool {
    &&& next.len() == plan_order(nodes).len()
    &&& forall|j: int|
        0 <= j < next.len() ==> (#[trigger] next[j]).node_id == nodes[plan_order(
            nodes,
        )[j] as int].self_id
}

/// Whether `next` is the plan of the cycle that follows `prev`: one entry
/// for each node that a sink reaches and for no other, in the order of
/// `plan_order`, which puts every entry behind the entries of the nodes that
/// its node consumes, each holding what was decided for its node.
pub open spec fn planned(g: GraphView, prev: Seq<RuntimeNode>, next: Seq<RuntimeNode>) -> bool {
    &&& in_plan_order(g.nodes, next)
    &&& forall|a: int, b: int|
        0 <= a < b < next.len() ==> (#[trigger] next[a]).node_id != (#[trigger] next[b]).node_id
    &&& forall|j: int| 0 <= j < next.len() ==> #[trigger] entry_planned(g.nodes, prev, next, j)
    &&& forall|k: int| #[trigger] reached(g.nodes, false, k) ==> has_entry(next, g.nodes[k].self_id)
    &&& forall|j: int, p: int|
        0 <= j < next.len() && #[trigger] edge(
            g.nodes,
            false,
            node_index(g.nodes, next[j].node_id),
            p,
        ) ==> entry_before(next, j, g.nodes[p].self_id)
}

/// The sinks among the first `upto` nodes, in the order of the graph.
pub open spec fn sinks(nodes: Seq<Node>, upto: int) -> Seq<usize>
    decreases upto,
{
    if upto <= 0 {
        Seq::empty()
    } else if nodes[upto - 1].is_output {
        sinks(nodes, upto - 1).push((upto - 1) as usize)
    } else {
        sinks(nodes, upto - 1)
    }
}

/// `found` with the producers behind the first `upto` inputs of the node at
/// `c` added at its end, each where it is met for the first time. With
/// `always` only the inputs count whose binding asks for a value every
/// cycle.
pub open spec fn followed(
    nodes: Seq<Node>,
    always: bool,
    found: Seq<usize>,
    c: int,
    upto: int,
) -> Seq<usize>
    decreases upto,
{
    if upto <= 0 {
        found
    } else {
        let so_far = followed(nodes, always, found, c, upto - 1);
        let input = nodes[c].inputs@[upto - 1];
        if input.binding is Some && counts(nodes, always, c, upto - 1) && has_node(
            nodes,
            input.binding->0.output_node_id,
        ) && !listed(so_far, node_index(nodes, input.binding->0.output_node_id)) {
            so_far.push(node_index(nodes, input.binding->0.output_node_id) as usize)
        } else {
            so_far
        }
    }
}

/// The list that the search ends with: from position `i` on, every node of
/// `found` has its producers added behind the list, and the nodes that are
/// added are searched in their turn. The search takes at most `fuel` nodes,
/// and no list of nodes of a graph is longer than the graph.
pub open spec fn searched(
    nodes: Seq<Node>,
    always: bool,
    found: Seq<usize>,
    i: int,
    fuel: nat,
) -> Seq<usize>
    decreases fuel,
{
    if fuel == 0 || i < 0 || i >= found.len() {
        found
    } else {
        searched(
            nodes,
            always,
            followed(
                nodes,
                always,
                found,
                found[i] as int,
                nodes[found[i] as int].inputs@.len() as int,
            ),
            i + 1,
            (fuel - 1) as nat,
        )
    }
}

/// The nodes that a sink reaches, in the order in which the backward pass
/// finds them: first the sinks, then what they reach along bindings that ask
/// for a value every cycle, then what is reached along any binding.
pub open spec fn discovery(nodes: Seq<Node>) -> Seq<usize> {
    searched(
        nodes,
        false,
        searched(nodes, true, sinks(nodes, nodes.len() as int), 0, nodes.len()),
        0,
        nodes.len(),
    )
}

/// `list`, last first.
pub open spec fn turned(list: Seq<usize>) -> Seq<usize> {
    Seq::new(list.len(), |q: int| list[list.len() - 1 - q])
}

/// The order of the plan, as positions in the graph: the reverse of the
/// order of discovery wherever that puts producers first, and otherwise, at
/// each step, the first node of that reverse order that can go next.
pub open spec fn plan_order(nodes: Seq<Node>) -> Seq<usize> {
    crate::topology::greedy(nodes, turned(discovery(nodes)), discovery(nodes).len())
}

/// Whether `marks` tells of every position of `nodes` whether `found` lists it.
pub open spec fn marks_match(nodes: Seq<Node>, found: Seq<usize>, marks: Seq<bool>) -> bool {
    &&& marks.len() == nodes.len()
    &&& forall|k: int| 0 <= k < nodes.len() ==> (#[trigger] marks[k] <==> listed(found, k))
}

/// Whether every node that `found` lists is reached from a sink.
pub open spec fn all_reached(nodes: Seq<Node>, always: bool, found: Seq<usize>) -> bool {
    forall|q: int| 0 <= q < found.len() ==> reached(nodes, always, #[trigger] found[q] as int)
}

/// Whether `found` lists every node that one of its first `upto` nodes
/// consumes.
pub open spec fn closed_upto(nodes: Seq<Node>, always: bool, found: Seq<usize>, upto: int) -> bool {
    forall|q: int, p: int|
        0 <= q < upto && q < found.len() && #[trigger] edge(nodes, always, found[q] as int, p)
            ==> listed(found, p)
}

/// Whether `found` lists every node that the node at `c` consumes through
/// one of its first `upto` inputs.
pub open spec fn inputs_listed(
    nodes: Seq<Node>,
    always: bool,
    found: Seq<usize>,
    c: int,
    upto: int,
) -> bool {
    forall|j: int, p: int|
        0 <= j < upto && #[trigger] binds(nodes, c, j, p) && counts(nodes, always, c, j) ==> listed(
            found,
            p,
        )
}

/// Whether `found` lists every sink.
pub open spec fn sinks_listed(nodes: Seq<Node>, found: Seq<usize>, upto: int) -> bool {
    forall|s: int| 0 <= s < upto && s < nodes.len() && (#[trigger] nodes[s]).is_output ==> listed(found, s)
}

proof fn lemma_listed_push(found: Seq<usize>, x: usize, k: int)
    requires
        listed(found, k),
    ensures
        listed(found.push(x), k),
{
    let q = choose|q: int| 0 <= q < found.len() && #[trigger] found[q] == k;
    assert(found.push(x)[q] == k);
}

proof fn lemma_listed_last(found: Seq<usize>, x: usize)
    ensures
        listed(found.push(x), x as int),
{
    assert(found.push(x)[found.len() as int] == x);
}

proof fn lemma_listed_split(found: Seq<usize>, x: usize, k: int)
    requires
        listed(found.push(x), k),
    ensures
        k == x || listed(found, k),
{
    let q = choose|q: int| 0 <= q < found.push(x).len() && #[trigger] found.push(x)[q] == k;
    if q < found.len() {
        assert(found[q] == k);
    }
}

/// What adding one unlisted, reached node to `found` keeps.
proof fn lemma_grow(
    nodes: Seq<Node>,
    always: bool,
    found: Seq<usize>,
    marks: Seq<bool>,
    x: usize,
    i: int,
    c: int,
    j: int,
    s: int,
)
    requires
        x < nodes.len(),
        !marks[x as int],
        0 <= i <= found.len(),
        distinct_positions(nodes, found),
        marks_match(nodes, found, marks),
        all_reached(nodes, always, found),
        reached(nodes, always, x as int),
        closed_upto(nodes, always, found, i),
        inputs_listed(nodes, always, found, c, j),
        sinks_listed(nodes, found, s),
    ensures
        distinct_positions(nodes, found.push(x)),
        marks_match(nodes, found.push(x), marks.update(x as int, true)),
        all_reached(nodes, always, found.push(x)),
        closed_upto(nodes, always, found.push(x), i),
        inputs_listed(nodes, always, found.push(x), c, j),
        sinks_listed(nodes, found.push(x), s),
{
    let grown = found.push(x);
    assert(!listed(found, x as int));
    assert forall|a: int, b: int| 0 <= a < grown.len() && 0 <= b < grown.len() && a != b implies grown[a]
        != grown[b] by {
        if a < found.len() && b < found.len() {
            assert(found[a] != found[b]);
        } else if a < found.len() {
            assert(found[a] == grown[a]);
        } else if b < found.len() {
            assert(found[b] == grown[b]);
        }
    }
    assert forall|q: int| 0 <= q < grown.len() implies (#[trigger] grown[q]) < nodes.len() by {
        if q < found.len() {
            assert(grown[q] == found[q]);
        }
    }
    assert forall|k: int| 0 <= k < nodes.len() implies (#[trigger] marks.update(x as int, true)[k]
        <==> listed(grown, k)) by {
        if k == x {
            lemma_listed_last(found, x);
        } else {
            if listed(found, k) {
                lemma_listed_push(found, x, k);
            }
            if listed(grown, k) {
                lemma_listed_split(found, x, k);
            }
        }
    }
    assert forall|q: int| 0 <= q < grown.len() implies reached(
        nodes,
        always,
        #[trigger] grown[q] as int,
    ) by {
        if q < found.len() {
            assert(grown[q] == found[q]);
        }
    }
    assert forall|q: int, p: int|
        0 <= q < i && q < grown.len() && #[trigger] edge(
            nodes,
            always,
            grown[q] as int,
            p,
        ) implies listed(grown, p) by {
        assert(grown[q] == found[q]);
        lemma_listed_push(found, x, p);
    }
    assert forall|a: int, p: int|
        0 <= a < j && #[trigger] binds(nodes, c, a, p) && counts(nodes, always, c, a) implies listed(
            grown,
            p,
        ) by {
        lemma_listed_push(found, x, p);
    }
    assert forall|t: int| 0 <= t < s && t < nodes.len() && (#[trigger] nodes[t]).is_output implies listed(
        grown,
        t,
    ) by {
        lemma_listed_push(found, x, t);
    }
}

/// Lists the sinks of `nodes`, in their order.
fn seed(nodes: &Vec<Node>) -> (seeded: (Vec<usize>, Vec<bool>))
    ensures
        seeded.0@ == sinks(nodes@, nodes@.len() as int),
        distinct_positions(nodes@, seeded.0@),
        marks_match(nodes@, seeded.0@, seeded.1@),
        all_reached(nodes@, true, seeded.0@),
        sinks_listed(nodes@, seeded.0@, nodes@.len() as int),
{
    let mut found: Vec<usize> = Vec::new();
    let mut marks: Vec<bool> = Vec::new();
    let mut k: usize = 0;
    while k < nodes.len()
        invariant
            k <= nodes@.len(),
            marks@.len() == k,
            found@ == sinks(nodes@, k as int),
            found@.no_duplicates(),
            forall|q: int| 0 <= q < found@.len() ==> (#[trigger] found@[q]) < k,
            forall|j: int| 0 <= j < k ==> (#[trigger] marks@[j] <==> listed(found@, j)),
            all_reached(nodes@, true, found@),
            sinks_listed(nodes@, found@, k as int),
        decreases nodes@.len() - k,
    {
        let ghost before = found@;
        let ghost flags = marks@;
        if nodes[k].is_output {
            found.push(k);
            marks.push(true);
            proof {
                lemma_reached_sink(nodes@, true, k as int);
                assert forall|a: int, b: int|
                    0 <= a < found@.len() && 0 <= b < found@.len() && a != b implies found@[a]
                    != found@[b] by {
                    if a < before.len() && b < before.len() {
                        assert(before[a] != before[b]);
                    } else if a < before.len() {
                        assert(before[a] == found@[a]);
                    } else if b < before.len() {
                        assert(before[b] == found@[b]);
                    }
                }
                assert forall|q: int| 0 <= q < found@.len() implies (#[trigger] found@[q]) < k + 1 by {
                    if q < before.len() {
                        assert(found@[q] == before[q]);
                    }
                }
                assert forall|j: int| 0 <= j < k + 1 implies (#[trigger] marks@[j] <==> listed(
                    found@,
                    j,
                )) by {
                    if j == k {
                        lemma_listed_last(before, k);
                    } else {
                        assert(marks@[j] == flags[j]);
                        if listed(before, j) {
                            lemma_listed_push(before, k, j);
                        }
                        if listed(found@, j) {
                            lemma_listed_split(before, k, j);
                        }
                    }
                }
                assert forall|q: int| 0 <= q < found@.len() implies reached(
                    nodes@,
                    true,
                    #[trigger] found@[q] as int,
                ) by {
                    if q < before.len() {
                        assert(found@[q] == before[q]);
                    }
                }
                assert forall|t: int|
                    0 <= t < k + 1 && t < nodes@.len() && (#[trigger] nodes@[t]).is_output implies listed(
                    found@,
                    t,
                ) by {
                    if t == k {
                        lemma_listed_last(before, k);
                    } else {
                        lemma_listed_push(before, k, t);
                    }
                }
            }
        } else {
            marks.push(false);
            proof {
                assert forall|j: int| 0 <= j < k + 1 implies (#[trigger] marks@[j] <==> listed(
                    found@,
                    j,
                )) by {
                    if j == k {
                        if listed(found@, j) {
                            let q = choose|q: int| 0 <= q < found@.len() && #[trigger] found@[q] == j;
                            assert(found@[q] < k);
                        }
                    } else {
                        assert(marks@[j] == flags[j]);
                    }
                }
            }
        }
        k += 1;
    }
    (found, marks)
}

/// Adds to `found` every node that one of its nodes consumes, directly or
/// through others; with `always`, only along bindings that ask for a value
/// every cycle. What `found` holds already keeps its place.
fn expand(nodes: &Vec<Node>, always: bool, found: &mut Vec<usize>, marks: &mut Vec<bool>)
    requires
        distinct_positions(nodes@, old(found)@),
        marks_match(nodes@, old(found)@, old(marks)@),
        all_reached(nodes@, always, old(found)@),
        sinks_listed(nodes@, old(found)@, nodes@.len() as int),
    ensures
        distinct_positions(nodes@, final(found)@),
        marks_match(nodes@, final(found)@, final(marks)@),
        all_reached(nodes@, always, final(found)@),
        sinks_listed(nodes@, final(found)@, nodes@.len() as int),
        closed_under_edges(nodes@, always, final(found)@),
        old(found)@.len() <= final(found)@.len(),
        final(found)@.take(old(found)@.len() as int) == old(found)@,
        final(found)@ == searched(nodes@, always, old(found)@, 0, nodes@.len()),
{
    let mut i: usize = 0;
    proof {
        lemma_distinct_bounded(found@, nodes@.len() as nat);
        assert(found@.take(found@.len() as int) == found@);
    }
    while i < found.len()
        invariant
            i <= found@.len(),
            found@.len() <= nodes@.len(),
            distinct_positions(nodes@, found@),
            marks_match(nodes@, found@, marks@),
            all_reached(nodes@, always, found@),
            sinks_listed(nodes@, found@, nodes@.len() as int),
            closed_upto(nodes@, always, found@, i as int),
            old(found)@.len() <= found@.len(),
            found@.take(old(found)@.len() as int) == old(found)@,
            searched(nodes@, always, old(found)@, 0, nodes@.len()) == searched(
                nodes@,
                always,
                found@,
                i as int,
                (nodes@.len() - i) as nat,
            ),
        decreases nodes@.len() - i,
    {
        let c = found[i];
        let node = &nodes[c];
        let ghost start = found@;
        let mut j: usize = 0;
        while j < node.inputs.len()
            invariant
                i < found@.len(),
                found@[i as int] == c,
                c < nodes@.len(),
                *node == nodes@[c as int],
                j <= node.inputs@.len(),
                found@.len() <= nodes@.len(),
                distinct_positions(nodes@, found@),
                marks_match(nodes@, found@, marks@),
                all_reached(nodes@, always, found@),
                sinks_listed(nodes@, found@, nodes@.len() as int),
                closed_upto(nodes@, always, found@, i as int),
                inputs_listed(nodes@, always, found@, c as int, j as int),
                old(found)@.len() <= found@.len(),
                found@.take(old(found)@.len() as int) == old(found)@,
                found@ == followed(nodes@, always, start, c as int, j as int),
                i < start.len(),
                start[i as int] == c,
                searched(nodes@, always, old(found)@, 0, nodes@.len()) == searched(
                    nodes@,
                    always,
                    start,
                    i as int,
                    (nodes@.len() - i) as nat,
                ),
            decreases node.inputs@.len() - j,
        {
            let follow = match node.inputs[j].binding {
                Some(binding) => if always {
                    match binding.behavior {
                        BindingBehavior::Always => true,
                        BindingBehavior::Once => false,
                    }
                } else {
                    true
                },
                None => false,
            };
            let ghost before = found@;
            if follow {
                let id = node.inputs[j].binding.unwrap().output_node_id;
                match find_node(nodes, id) {
                    Some(p) => {
                        proof {
                            assert(binds(nodes@, c as int, j as int, p as int));
                            assert(counts(nodes@, always, c as int, j as int));
                            assert(edge(nodes@, always, c as int, p as int));
                            assert(reached(nodes@, always, found@[i as int] as int));
                            lemma_reached_step(nodes@, always, c as int, p as int);
                        }
                        if !marks[p] {
                            proof {
                                lemma_grow(
                                    nodes@,
                                    always,
                                    found@,
                                    marks@,
                                    p,
                                    i as int,
                                    c as int,
                                    j as int,
                                    nodes@.len() as int,
                                );
                            }
                            found.push(p);
                            marks.set(p, true);
                            proof {
                                lemma_distinct_bounded(found@, nodes@.len() as nat);
                                lemma_listed_last(before, p);
                                assert(found@.take(old(found)@.len() as int) == before.take(
                                    old(found)@.len() as int,
                                ));
                            }
                        }
                        proof {
                            assert(listed(found@, p as int));
                            assert forall|a: int, q: int|
                                0 <= a < j + 1 && #[trigger] binds(nodes@, c as int, a, q) && counts(
                                    nodes@,
                                    always,
                                    c as int,
                                    a,
                                ) implies listed(found@, q) by {
                                if a == j {
                                    lemma_node_index(nodes@, id, q);
                                }
                            }
                        }
                    },
                    None => {
                        proof {
                            assert forall|a: int, q: int|
                                0 <= a < j + 1 && #[trigger] binds(nodes@, c as int, a, q) && counts(
                                    nodes@,
                                    always,
                                    c as int,
                                    a,
                                ) implies listed(found@, q) by {
                                if a == j {
                                    lemma_node_index(nodes@, id, q);
                                }
                            }
                        }
                    },
                }
            } else {
                proof {
                    assert forall|a: int, q: int|
                        0 <= a < j + 1 && #[trigger] binds(nodes@, c as int, a, q) && counts(
                            nodes@,
                            always,
                            c as int,
                            a,
                        ) implies listed(found@, q) by {
                    }
                }
            }
            proof {
                assert(found@ == followed(nodes@, always, start, c as int, j + 1));
            }
            j += 1;
        }
        proof {
            assert(searched(nodes@, always, start, i as int, (nodes@.len() - i) as nat) == searched(
                nodes@,
                always,
                found@,
                i + 1,
                (nodes@.len() - i - 1) as nat,
            ));
        }
        proof {
            assert forall|q: int, p: int|
                0 <= q < i + 1 && q < found@.len() && #[trigger] edge(
                    nodes@,
                    always,
                    found@[q] as int,
                    p,
                ) implies listed(found@, p) by {
                if q == i {
                    let a = choose|a: int| #[trigger]
                        binds(nodes@, c as int, a, p) && counts(nodes@, always, c as int, a);
                    assert(binds(nodes@, c as int, a, p) && counts(nodes@, always, c as int, a));
                }
            }
        }
        i += 1;
    }
    proof {
        assert forall|m: int, p: int| listed(found@, m) && #[trigger] edge(nodes@, always, m, p)
            implies listed(found@, p) by {
            let q = choose|q: int| 0 <= q < found@.len() && #[trigger] found@[q] == m;
            assert(edge(nodes@, always, found@[q] as int, p));
        }
    }
}

/// The elements of `list`, last first.
fn reversed(list: &Vec<usize>) -> (turned: Vec<usize>)
    ensures
        turned@.len() == list@.len(),
        forall|q: int| 0 <= q < list@.len() ==> #[trigger] turned@[q] == list@[list@.len() - 1 - q],
{
    let mut turned: Vec<usize> = Vec::new();
    let mut left: usize = list.len();
    while left > 0
        invariant
            left <= list@.len(),
            turned@.len() == list@.len() - left,
            forall|q: int|
                0 <= q < turned@.len() ==> #[trigger] turned@[q] == list@[list@.len() - 1 - q],
        decreases left,
    {
        left -= 1;
        turned.push(list[left]);
    }
    turned
}

proof fn lemma_reversed(nodes: Seq<Node>, list: Seq<usize>, turned: Seq<usize>)
    requires
        turned.len() == list.len(),
        forall|q: int| 0 <= q < list.len() ==> #[trigger] turned[q] == list[list.len() - 1 - q],
    ensures
        same_members(turned, list),
        distinct_positions(nodes, list) ==> distinct_positions(nodes, turned),
{
    assert forall|k: int| listed(turned, k) <==> listed(list, k) by {
        if listed(turned, k) {
            let q = choose|q: int| 0 <= q < turned.len() && #[trigger] turned[q] == k;
            assert(list[list.len() - 1 - q] == k);
        }
        if listed(list, k) {
            let q = choose|q: int| 0 <= q < list.len() && #[trigger] list[q] == k;
            assert(turned[list.len() - 1 - q] == list[list.len() - 1 - (list.len() - 1 - q)]);
        }
    }
    if distinct_positions(nodes, list) {
        assert forall|a: int, b: int|
            0 <= a < turned.len() && 0 <= b < turned.len() && a != b implies turned[a]
            != turned[b] by {
            assert(turned[a] == list[list.len() - 1 - a]);
            assert(turned[b] == list[list.len() - 1 - b]);
        }
        assert forall|q: int| 0 <= q < turned.len() implies (#[trigger] turned[q]) < nodes.len() by {
            assert(turned[q] == list[list.len() - 1 - q]);
        }
    }
}

/// A copy of `flags`.
fn copy_flags(flags: &Vec<bool>) -> (copy: Vec<bool>)
    ensures
        copy@ == flags@,
{
    let mut copy: Vec<bool> = Vec::new();
    let mut i: usize = 0;
    while i < flags.len()
        invariant
            i <= flags@.len(),
            copy@ == flags@.take(i as int),
        decreases flags@.len() - i,
    {
        copy.push(flags[i]);
        proof {
            assert(flags@.take(i + 1) == flags@.take(i as int).push(flags@[i as int]));
        }
        i += 1;
    }
    proof {
        assert(flags@.take(i as int) == flags@);
    }
    copy
}

/// In a valid graph every node is the first to carry its identifier.
pub proof fn lemma_own_index(g: GraphView, k: int)
    requires
        valid(g),
        0 <= k < g.nodes.len(),
    ensures
        node_at(g.nodes, g.nodes[k].self_id, k),
        node_index(g.nodes, g.nodes[k].self_id) == k,
        has_node(g.nodes, g.nodes[k].self_id),
{
    assert(crate::validate::node_sound(g, k));
    assert forall|j: int| 0 <= j < k implies g.nodes[j].self_id != g.nodes[k].self_id by {
        if g.nodes[j].self_id == g.nodes[k].self_id {
            assert(repeats_id(g.nodes, k));
        }
    }
    lemma_node_index(g.nodes, g.nodes[k].self_id, k);
}

/// Whether input `i` of the node at `m` is bound to a node that `flags` marks.
pub open spec fn flagged_input(nodes: Seq<Node>, flags: Seq<bool>, m: int, i: int) -> bool {
    exists|p: int| #[trigger] binds(nodes, m, i, p) && flags[p]
}

/// The forward pass for missing inputs: it tells of every node of `order`
/// whether it is starved, that is whether it, or a node that it consumes
/// directly or through others, lacks a required input. The answers stand at
/// the positions of the nodes in `nodes`.
pub fn traverse_forward1(nodes: &Vec<Node>, order: &Vec<usize>) -> (flags: Vec<bool>)
    requires
        distinct_positions(nodes@, order@),
        producers_first(nodes@, order@),
    ensures
        flags@.len() == nodes@.len(),
        forall|q: int|
            0 <= q < order@.len() ==> flags@[#[trigger] order@[q] as int] == starved(
                nodes@,
                order@[q] as int,
            ),
{
    let mut flags: Vec<bool> = Vec::new();
    let mut k: usize = 0;
    while k < nodes.len()
        invariant
            k <= nodes@.len(),
            flags@.len() == k,
        decreases nodes@.len() - k,
    {
        flags.push(false);
        k += 1;
    }
    let mut pos: usize = 0;
    while pos < order.len()
        invariant
            pos <= order@.len(),
            flags@.len() == nodes@.len(),
            distinct_positions(nodes@, order@),
            producers_first(nodes@, order@),
            forall|q: int|
                0 <= q < pos ==> flags@[#[trigger] order@[q] as int] == starved(
                    nodes@,
                    order@[q] as int,
                ),
        decreases order@.len() - pos,
    {
        let m = order[pos];
        let node = &nodes[m];
        let mut lacking = false;
        let mut inherited = false;
        let mut i: usize = 0;
        while i < node.inputs.len()
            invariant
                i <= node.inputs@.len(),
                m < nodes@.len(),
                *node == nodes@[m as int],
                flags@.len() == nodes@.len(),
                lacking <==> exists|a: int|
                    0 <= a < i && (#[trigger] node.inputs@[a]).is_required && node.inputs@[a].binding
                        is None,
                inherited <==> exists|a: int| 0 <= a < i && #[trigger] flagged_input(nodes@, flags@, m as int, a),
            decreases node.inputs@.len() - i,
        {
            match node.inputs[i].binding {
                Some(binding) => {
                    match find_node(nodes, binding.output_node_id) {
                        Some(p) => {
                            proof {
                                assert(binds(nodes@, m as int, i as int, p as int));
                                assert forall|q: int| #[trigger] binds(nodes@, m as int, i as int, q)
                                    implies q == p by {
                                    lemma_node_index(nodes@, binding.output_node_id, q);
                                }
                            }
                            if flags[p] {
                                inherited = true;
                                proof {
                                    assert(flagged_input(nodes@, flags@, m as int, i as int));
                                }
                            }
                        },
                        None => {
                            proof {
                                assert forall|q: int| !#[trigger] binds(nodes@, m as int, i as int, q) by {
                                    if binds(nodes@, m as int, i as int, q) {
                                        lemma_node_index(nodes@, binding.output_node_id, q);
                                    }
                                }
                            }
                        },
                    }
                },
                None => {
                    if node.inputs[i].is_required {
                        lacking = true;
                    }
                },
            }
            i += 1;
        }
        let ghost before = flags@;
        flags.set(m, lacking || inherited);
        proof {
            lemma_starved_unfold(nodes@, m as int);
            assert(lacking == lacks_input(nodes@[m as int]));
            if inherited {
                let a = choose|a: int|
                    0 <= a < node.inputs@.len() && #[trigger] flagged_input(nodes@, before, m as int, a);
                let p = choose|p: int| #[trigger] binds(nodes@, m as int, a, p) && before[p];
                assert(binds(nodes@, m as int, a, p) && counts(nodes@, false, m as int, a));
                assert(edge(nodes@, false, order@[pos as int] as int, p));
                assert(listed_before(order@, pos as int, p));
                let q = choose|q: int| 0 <= q < pos && q < order@.len() && #[trigger] order@[q] == p;
                assert(before[order@[q] as int] == starved(nodes@, order@[q] as int));
                assert(edge(nodes@, false, m as int, p) && starved(nodes@, p));
            }
            if exists|p: int| #[trigger] edge(nodes@, false, m as int, p) && starved(nodes@, p) {
                let p = choose|p: int| #[trigger] edge(nodes@, false, m as int, p) && starved(nodes@, p);
                assert(edge(nodes@, false, order@[pos as int] as int, p));
                assert(listed_before(order@, pos as int, p));
                let q = choose|q: int| 0 <= q < pos && q < order@.len() && #[trigger] order@[q] == p;
                assert(before[order@[q] as int] == starved(nodes@, order@[q] as int));
                let a = choose|a: int| #[trigger]
                    binds(nodes@, m as int, a, p) && counts(nodes@, false, m as int, a);
                assert(binds(nodes@, m as int, a, p) && before[p]);
                assert(flagged_input(nodes@, before, m as int, a));
            }
            assert forall|q: int| 0 <= q < pos + 1 implies flags@[#[trigger] order@[q] as int]
                == starved(nodes@, order@[q] as int) by {
                if q < pos {
                    assert(order@[q] != order@[pos as int]);
                    assert(before[order@[q] as int] == starved(nodes@, order@[q] as int));
                }
            }
        }
        pos += 1;
    }
    flags
}

/// Counts the bindings of the marked nodes that name `id`.
fn count_bindings(nodes: &Vec<Node>, marks: &Vec<bool>, id: Id) -> (count: u32)
    requires
        marks@.len() == nodes@.len(),
        forall|k: int| 0 <= k < nodes@.len() ==> (#[trigger] marks@[k] <==> reached(nodes@, false, k)),
    ensures
        count == binding_count(nodes@, id),
{
    let mut count: u32 = 0;
    let mut k: usize = 0;
    while k < nodes.len()
        invariant
            k <= nodes@.len(),
            marks@.len() == nodes@.len(),
            forall|j: int|
                0 <= j < nodes@.len() ==> (#[trigger] marks@[j] <==> reached(nodes@, false, j)),
            count as nat == if consumers_of(nodes@, id, k as int) > u32::MAX {
                u32::MAX as nat
            } else {
                consumers_of(nodes@, id, k as int)
            },
        decreases nodes@.len() - k,
    {
        if marks[k] {
            let node = &nodes[k];
            let ghost base = consumers_of(nodes@, id, k as int);
            let mut i: usize = 0;
            while i < node.inputs.len()
                invariant
                    i <= node.inputs@.len(),
                    k < nodes@.len(),
                    *node == nodes@[k as int],
                    count as nat == if base + bindings_to(node.inputs@, id, i as int) > u32::MAX {
                        u32::MAX as nat
                    } else {
                        base + bindings_to(node.inputs@, id, i as int)
                    },
                decreases node.inputs@.len() - i,
            {
                let named = match node.inputs[i].binding {
                    Some(binding) => binding.output_node_id == id,
                    None => false,
                };
                if named && count < u32::MAX {
                    count += 1;
                }
                i += 1;
            }
        }
        k += 1;
    }
    count
}

/// Whether some input of `node` is fresh: bound, asking for a value every
/// cycle, to a producer that had to run in the previous cycle.
fn fresh_input(node: &Node, prev: &Vec<RuntimeNode>) -> (fresh: bool)
    ensures
        fresh == has_fresh_input(prev@, *node),
{
    let mut i: usize = 0;
    while i < node.inputs.len()
        invariant
            i <= node.inputs@.len(),
            forall|a: int| 0 <= a < i ==> !input_fresh(prev@, #[trigger] node.inputs@[a]),
        decreases node.inputs@.len() - i,
    {
        match node.inputs[i].binding {
            Some(binding) => {
                let asks = match binding.behavior {
                    BindingBehavior::Always => true,
                    BindingBehavior::Once => false,
                };
                if asks {
                    match find_entry(prev, binding.output_node_id) {
                        Some(e) => {
                            if prev[e].should_execute {
                                assert(input_fresh(prev@, node.inputs@[i as int]));
                                return true;
                            }
                        },
                        None => {},
                    }
                }
            },
            None => {},
        }
        i += 1;
    }
    false
}

/// What the backward pass found.
#[derive(Clone, Debug)]
pub struct Discovery {
    /// The reached nodes, producers first.
    pub order: Vec<usize>,
    /// For every node of the graph, whether a sink reaches it.
    pub reached: Vec<bool>,
    /// For every node of the graph, whether a sink reaches it along bindings
    /// that all ask for a value every cycle.
    pub asked: Vec<bool>,
}

/// Whether `found` holds what the backward pass has to find in `nodes`.
pub open spec fn discovered(nodes: Seq<Node>, found: Discovery) -> bool {
    &&& found.order@ == plan_order(nodes)
    &&& distinct_positions(nodes, found.order@)
    &&& producers_first(nodes, found.order@)
    &&& found.reached@.len() == nodes.len()
    &&& found.asked@.len() == nodes.len()
    &&& forall|k: int| 0 <= k < nodes.len() ==> (#[trigger] found.reached@[k] <==> reached(nodes, false, k))
    &&& forall|k: int| 0 <= k < nodes.len() ==> (#[trigger] found.asked@[k] <==> reached(nodes, true, k))
    &&& forall|k: int| 0 <= k < nodes.len() ==> (listed(found.order@, k) <==> #[trigger] reached(nodes, false, k))
}

/// The nodes that a sink reaches, and of each whether a sink asks it for a
/// value every cycle.
fn collect(nodes: &Vec<Node>) -> (collected: (Vec<usize>, Vec<bool>, Vec<bool>))
    ensures
        collected.0@ == discovery(nodes@),
        distinct_positions(nodes@, collected.0@),
        closed_under_edges(nodes@, false, collected.0@),
        collected.1@.len() == nodes@.len(),
        collected.2@.len() == nodes@.len(),
        forall|k: int|
            0 <= k < nodes@.len() ==> (#[trigger] collected.1@[k] <==> reached(nodes@, false, k)),
        forall|k: int|
            0 <= k < nodes@.len() ==> (#[trigger] collected.2@[k] <==> reached(nodes@, true, k)),
        forall|k: int|
            0 <= k < nodes@.len() ==> (listed(collected.0@, k) <==> #[trigger] reached(
                nodes@,
                false,
                k,
            )),
{
    let seeded = seed(nodes);
    let mut found = seeded.0;
    let mut marks = seeded.1;
    expand(nodes, true, &mut found, &mut marks);
    let asked = copy_flags(&marks);
    proof {
        assert forall|k: int| 0 <= k < nodes@.len() implies (#[trigger] asked@[k] <==> reached(
            nodes@,
            true,
            k,
        )) by {
            if reached(nodes@, true, k) {
                lemma_closed_holds_reached(nodes@, true, found@, k);
            }
            if listed(found@, k) {
                let q = choose|q: int| 0 <= q < found@.len() && #[trigger] found@[q] == k;
                assert(reached(nodes@, true, found@[q] as int));
            }
        }
        assert forall|q: int| 0 <= q < found@.len() implies reached(
            nodes@,
            false,
            #[trigger] found@[q] as int,
        ) by {
            lemma_reached_weaken(nodes@, found@[q] as int);
        }
    }
    expand(nodes, false, &mut found, &mut marks);
    proof {
        assert forall|k: int| 0 <= k < nodes@.len() implies (listed(found@, k) <==> #[trigger] reached(
            nodes@,
            false,
            k,
        )) by {
            if reached(nodes@, false, k) {
                lemma_closed_holds_reached(nodes@, false, found@, k);
            }
            if listed(found@, k) {
                let q = choose|q: int| 0 <= q < found@.len() && #[trigger] found@[q] == k;
                assert(reached(nodes@, false, found@[q] as int));
            }
        }
        assert forall|k: int| 0 <= k < nodes@.len() implies (#[trigger] marks@[k] <==> reached(
            nodes@,
            false,
            k,
        )) by {
            assert(listed(found@, k) <==> reached(nodes@, false, k));
        }
    }
    (found, marks, asked)
}

/// The backward pass: from the sinks along the bindings to every node that
/// a sink needs. The nodes come out producers first: in the reverse of the
/// order in which they were found wherever that puts producers first, and
/// otherwise with the earliest node that can go next at each step.
pub fn traverse_backward(nodes: &Vec<Node>) -> (found: Discovery)
    requires
        acyclic(nodes@),
    ensures
        discovered(nodes@, found),
{
    let collected = collect(nodes);
    let members = reversed(&collected.0);
    proof {
        assert(members@ =~= turned(collected.0@));
        lemma_reversed(nodes@, collected.0@, members@);
        assert forall|m: int, p: int| listed(members@, m) && #[trigger] edge(nodes@, false, m, p)
            implies listed(members@, p) by {
            assert(listed(collected.0@, m));
            assert(listed(collected.0@, p));
        }
    }
    let order = arrange(nodes, &members).unwrap();
    proof {
        assert forall|k: int| 0 <= k < nodes@.len() implies (listed(order@, k) <==> #[trigger] reached(
            nodes@,
            false,
            k,
        )) by {
            assert(listed(order@, k) <==> listed(members@, k));
            assert(listed(members@, k) <==> listed(collected.0@, k));
        }
    }
    Discovery { order, reached: collected.1, asked: collected.2 }
}

/// The decision pass for one node: whether the node at `k` has to run. The
/// entry comes out with nothing cached.
fn decide(
    nodes: &Vec<Node>,
    prev: &Vec<RuntimeNode>,
    k: usize,
    is_starved: bool,
    is_asked: bool,
    total_binding_count: u32,
) -> (entry: RuntimeNode)
    requires
        k < nodes@.len(),
        is_starved == starved(nodes@, k as int),
        is_asked == reached(nodes@, true, k as int),
        total_binding_count == binding_count(nodes@, nodes@[k as int].self_id),
    ensures
        node_decided(nodes@, prev@, k as int, entry),
        entry.output_values@.len() == 0,
{
    let node = &nodes[k];
    let id = node.self_id;
    let before = find_entry(prev, id);
    let cached = match before {
        Some(e) => prev[e].has_outputs,
        None => false,
    };
    let keeps = !node.is_output && cached;
    let active = match node.behavior {
        NodeBehavior::Active => true,
        NodeBehavior::Passive => false,
    };
    let should = !is_starved && (!keeps || (is_asked && (active || fresh_input(node, prev))));
    RuntimeNode {
        node_id: id,
        name: node.name.clone(),
        behavior: node.behavior,
        is_output: node.is_output,
        should_execute: should,
        has_outputs: keeps || should,
        has_missing_inputs: is_starved,
        edge_behavior: if is_asked {
            BindingBehavior::Always
        } else {
            BindingBehavior::Once
        },
        total_binding_count,
        output_values: Vec::new(),
        failure: None,
    }
}

/// Whether `entry` holds what was decided for the node at `k` and nothing
/// else yet.
pub open spec fn entry_decided(
    nodes: Seq<Node>,
    prev: Seq<RuntimeNode>,
    k: int,
    entry: RuntimeNode,
) -> bool {
    &&& node_decided(nodes, prev, k, entry)
    &&& entry.output_values@.len() == 0
}

/// The decision pass: one entry for every node of `found`, in its order.
pub fn traverse_forward2(
    nodes: &Vec<Node>,
    prev: &Vec<RuntimeNode>,
    found: &Discovery,
    starved_flags: &Vec<bool>,
) -> (entries: Vec<RuntimeNode>)
    requires
        discovered(nodes@, *found),
        starved_flags@.len() == nodes@.len(),
        forall|q: int|
            0 <= q < found.order@.len() ==> starved_flags@[#[trigger] found.order@[q] as int]
                == starved(nodes@, found.order@[q] as int),
    ensures
        entries@.len() == found.order@.len(),
        forall|q: int|
            0 <= q < found.order@.len() ==> entry_decided(
                nodes@,
                prev@,
                found.order@[q] as int,
                #[trigger] entries@[q],
            ),
{
    let mut entries: Vec<RuntimeNode> = Vec::new();
    let mut pos: usize = 0;
    while pos < found.order.len()
        invariant
            pos <= found.order@.len(),
            entries@.len() == pos,
            discovered(nodes@, *found),
            starved_flags@.len() == nodes@.len(),
            forall|q: int|
                0 <= q < found.order@.len() ==> starved_flags@[#[trigger] found.order@[q] as int]
                    == starved(nodes@, found.order@[q] as int),
            forall|q: int|
                0 <= q < pos ==> entry_decided(
                    nodes@,
                    prev@,
                    found.order@[q] as int,
                    #[trigger] entries@[q],
                ),
        decreases found.order@.len() - pos,
    {
        let k = found.order[pos];
        proof {
            assert(starved_flags@[found.order@[pos as int] as int] == starved(
                nodes@,
                found.order@[pos as int] as int,
            ));
            assert(found.asked@[k as int] <==> reached(nodes@, true, k as int));
        }
        let count = count_bindings(nodes, &found.reached, nodes[k].self_id);
        let entry = decide(nodes, prev, k, starved_flags[k], found.asked[k], count);
        let ghost built = entries@;
        entries.push(entry);
        proof {
            assert forall|q: int| 0 <= q < pos + 1 implies entry_decided(
                nodes@,
                prev@,
                found.order@[q] as int,
                #[trigger] entries@[q],
            ) by {
                if q < pos {
                    assert(entries@[q] == built[q]);
                }
            }
        }
        pos += 1;
    }
    entries
}

/// Whether `entry` holds what goes over to it from the entries of `prev`
/// from position `from` on.
spec fn kept_from(prev: Seq<RuntimeNode>, from: int, entry: RuntimeNode) -> bool {
    node_kept(prev.skip(from), entry)
}

/// What the entry in front of a list changes for the node `id`: it is the
/// first entry for its own node, and every other node is found one place
/// further on.
proof fn lemma_entry_in_front(prev: Seq<RuntimeNode>, from: int, id: Id)
    requires
        0 < from <= prev.len(),
    ensures
        prev[from - 1].node_id == id ==> has_entry(prev.skip(from - 1), id) && entry_index(
            prev.skip(from - 1),
            id,
        ) == 0,
        prev[from - 1].node_id != id ==> has_entry(prev.skip(from - 1), id) == has_entry(
            prev.skip(from),
            id,
        ),
        prev[from - 1].node_id != id && has_entry(prev.skip(from), id) ==> prev.skip(
            from - 1,
        )[entry_index(prev.skip(from - 1), id)] == prev.skip(from)[entry_index(prev.skip(from), id)],
{
    let longer = prev.skip(from - 1);
    let shorter = prev.skip(from);
    assert(longer[0] == prev[from - 1]);
    assert forall|i: int| 0 <= i < shorter.len() implies shorter[i] == longer[i + 1] by {}
    if prev[from - 1].node_id == id {
        assert(crate::runtime_graph::entry_at(longer, id, 0));
        crate::runtime_graph::lemma_entry_index(longer, id, 0);
    } else {
        if has_entry(longer, id) {
            let w = choose|i: int| 0 <= i < longer.len() && longer[i].node_id == id;
            assert(shorter[w - 1] == longer[w]);
            assert(has_entry(shorter, id));
        }
        if has_entry(shorter, id) {
            let w = choose|i: int| 0 <= i < shorter.len() && shorter[i].node_id == id;
            assert(shorter[w] == longer[w + 1]);
            assert(has_entry(longer, id));
            crate::runtime_graph::lemma_entry_index_exists(shorter, id);
            let e = entry_index(shorter, id);
            assert(crate::runtime_graph::entry_at(longer, id, e + 1)) by {
                assert(longer[e + 1] == shorter[e]);
                assert forall|j: int| 0 <= j < e + 1 implies longer[j].node_id != id by {
                    if j > 0 {
                        assert(longer[j] == shorter[j - 1]);
                    }
                }
            }
            crate::runtime_graph::lemma_entry_index(longer, id, e + 1);
        }
    }
}

/// Hands what `prev` has cached over to the entries of the new plan: unless
/// its node is a sink, every entry takes the output values that the entry
/// that stood for its node had. `prev` is left empty.
fn carry_over(prev: &mut Vec<RuntimeNode>, entries: &mut Vec<RuntimeNode>)
    requires
        forall|a: int, b: int|
            0 <= a < b < old(entries)@.len() ==> (#[trigger] old(entries)@[a]).node_id != (
            #[trigger] old(entries)@[b]).node_id,
        forall|t: int|
            0 <= t < old(entries)@.len() ==> (#[trigger] old(entries)@[t]).output_values@.len() == 0,
    ensures
        final(prev)@.len() == 0,
        final(entries)@.len() == old(entries)@.len(),
        forall|t: int|
            0 <= t < old(entries)@.len() ==> same_decision(
                #[trigger] old(entries)@[t],
                final(entries)@[t],
            ) && node_kept(old(prev)@, final(entries)@[t]),
{
    proof {
        let none = prev@.skip(prev@.len() as int);
        assert(none.len() == 0);
        assert(prev@.take(prev@.len() as int) == prev@);
        assert forall|t: int| 0 <= t < entries@.len() implies kept_from(
            prev@,
            prev@.len() as int,
            #[trigger] entries@[t],
        ) by {
            assert(!has_entry(none, entries@[t].node_id));
            assert(entries@[t].output_values@ =~= Seq::<Value>::empty());
        }
    }
    while prev.len() > 0
        invariant
            prev@.len() <= old(prev)@.len(),
            prev@ == old(prev)@.take(prev@.len() as int),
            entries@.len() == old(entries)@.len(),
            forall|a: int, b: int|
                0 <= a < b < entries@.len() ==> (#[trigger] entries@[a]).node_id != (
                #[trigger] entries@[b]).node_id,
            forall|t: int|
                0 <= t < entries@.len() ==> same_decision(
                    #[trigger] old(entries)@[t],
                    entries@[t],
                ) && kept_from(old(prev)@, prev@.len() as int, entries@[t]),
        decreases prev@.len(),
    {
        let ghost from = prev@.len() as int;
        let ghost held = entries@;
        let entry = prev.pop().unwrap();
        assert(entry == old(prev)@[from - 1]);
        match find_entry(entries, entry.node_id) {
            Some(t) => {
                if !entries[t].is_output && entry.has_outputs {
                    entries[t].output_values = entry.output_values;
                } else {
                    entries[t].output_values = Vec::new();
                }
                proof {
                    assert forall|a: int, b: int| 0 <= a < b < entries@.len() implies (
                    #[trigger] entries@[a]).node_id != (#[trigger] entries@[b]).node_id by {
                        assert(entries@[a].node_id == held[a].node_id);
                        assert(entries@[b].node_id == held[b].node_id);
                    }
                    assert forall|x: int| 0 <= x < entries@.len() implies same_decision(
                        #[trigger] old(entries)@[x],
                        entries@[x],
                    ) && kept_from(old(prev)@, from - 1, entries@[x]) by {
                        assert(same_decision(old(entries)@[x], held[x]));
                        assert(kept_from(old(prev)@, from, held[x]));
                        lemma_entry_in_front(old(prev)@, from, entries@[x].node_id);
                        if x < t {
                            assert(entries@[x] == held[x]);
                            assert(held[x].node_id != held[t as int].node_id);
                        } else if x > t {
                            assert(entries@[x] == held[x]);
                            assert(held[t as int].node_id != held[x].node_id);
                        }
                    }
                }
            },
            None => {
                proof {
                    assert forall|x: int| 0 <= x < entries@.len() implies same_decision(
                        #[trigger] old(entries)@[x],
                        entries@[x],
                    ) && kept_from(old(prev)@, from - 1, entries@[x]) by {
                        assert(same_decision(old(entries)@[x], held[x]));
                        assert(kept_from(old(prev)@, from, held[x]));
                        lemma_entry_in_front(old(prev)@, from, entries@[x].node_id);
                    }
                }
            },
        }
        assert(prev@.len() == from - 1);
        assert(entries@.len() == old(entries)@.len());
        assert(forall|x: int|
            0 <= x < entries@.len() ==> same_decision(#[trigger] old(entries)@[x], entries@[x])
                && kept_from(old(prev)@, from - 1, entries@[x]));
    }
    proof {
        assert(old(prev)@.skip(0) == old(prev)@);
    }
}

/// Moves the contexts that belong to a node of `nodes` out of `contexts`,
/// in their order; the others are dropped with their nodes.
fn keep_contexts(nodes: &Vec<Node>, contexts: &mut Vec<NodeContext>) -> (kept: Vec<NodeContext>)
    ensures
        kept@ == contexts_of(nodes@, old(contexts)@),
        final(contexts)@.len() == 0,
{
    let mut turned: Vec<NodeContext> = Vec::new();
    proof {
        assert(contexts@.take(contexts@.len() as int) == contexts@);
    }
    while contexts.len() > 0
        invariant
            contexts@.len() + turned@.len() == old(contexts)@.len(),
            contexts@ == old(contexts)@.take(contexts@.len() as int),
            forall|i: int|
                0 <= i < turned@.len() ==> #[trigger] turned@[i] == old(contexts)@[old(contexts)@.len() - 1 - i],
        decreases contexts@.len(),
    {
        let ghost held = turned@;
        let context = contexts.pop().unwrap();
        turned.push(context);
        proof {
            assert(contexts@ == old(contexts)@.take(contexts@.len() as int));
            assert forall|i: int| 0 <= i < turned@.len() implies #[trigger] turned@[i] == old(contexts)@[old(contexts)@.len() - 1 - i] by {
                if i < held.len() {
                    assert(turned@[i] == held[i]);
                }
            }
        }
    }
    let mut kept: Vec<NodeContext> = Vec::new();
    proof {
        assert(old(contexts)@.take(0) == Seq::<NodeContext>::empty());
    }
    while turned.len() > 0
        invariant
            turned@.len() <= old(contexts)@.len(),
            forall|i: int|
                0 <= i < turned@.len() ==> #[trigger] turned@[i] == old(contexts)@[old(contexts)@.len() - 1 - i],
            kept@ == contexts_of(
                nodes@,
                old(contexts)@.take(old(contexts)@.len() - turned@.len()),
            ),
        decreases turned@.len(),
    {
        let ghost at = old(contexts)@.len() - turned@.len();
        let context = turned.pop().unwrap();
        proof {
            assert(context == old(contexts)@[at]);
            assert(old(contexts)@.take(at + 1).drop_last() == old(contexts)@.take(at));
            assert(old(contexts)@.take(at + 1).last() == context);
        }
        if find_node(nodes, context.node_id).is_some() {
            kept.push(context);
        }
    }
    proof {
        assert(old(contexts)@.take(old(contexts)@.len() as int) == old(contexts)@);
    }
    kept
}

/// Whether `after` holds the decisions of `before`: everything but what is
/// cached.
spec fn same_decision(before: RuntimeNode, after: RuntimeNode) -> bool {
    &&& after.node_id == before.node_id
    &&& after.name == before.name
    &&& after.behavior == before.behavior
    &&& after.is_output == before.is_output
    &&& after.should_execute == before.should_execute
    &&& after.has_outputs == before.has_outputs
    &&& after.has_missing_inputs == before.has_missing_inputs
    &&& after.edge_behavior == before.edge_behavior
    &&& after.total_binding_count == before.total_binding_count
    &&& after.failure == before.failure
}

/// The planner: it decides, for a graph and the plan of the previous cycle,
/// which nodes the next cycle needs and which of them have to run.
#[derive(Clone, Copy, Debug)]
pub struct Preprocess {}

impl Default for Preprocess {
    fn default() -> (planner: Preprocess) {
        Preprocess {  }
    }
}

impl Preprocess {
    /// Plans the cycle that follows `prev`.
    ///
    /// Backward from the sinks it collects the nodes that a sink needs and
    /// puts them in an order in which producers come first; forward it marks
    /// the nodes that are starved of a required input; and it decides for
    /// every other node whether it has to run. What `prev` had cached for
    /// the nodes of the plan moves over to the plan, and so do the scratch
    /// values of every node that the graph still holds; `prev` is left empty.
    pub fn run(&self, graph: &Graph, prev: &mut RuntimeGraph) -> (next: RuntimeGraph)
        requires
            valid(graph@),
        ensures
            planned(graph@, old(prev)@, next@),
            next.contexts@ == contexts_of(graph@.nodes, old(prev).contexts@),
            final(prev)@.len() == 0,
            final(prev).contexts@.len() == 0,
    {
        let nodes = graph.nodes();
        let found = traverse_backward(nodes);
        let starved_flags = traverse_forward1(nodes, &found.order);
        let mut entries = traverse_forward2(nodes, &prev.nodes, &found, &starved_flags);
        let ghost decided = entries@;
        proof {
            assert forall|a: int, b: int| 0 <= a < b < entries@.len() implies (
            #[trigger] entries@[a]).node_id != (#[trigger] entries@[b]).node_id by {
                assert(entry_decided(nodes@, prev@, found.order@[a] as int, entries@[a]));
                assert(entry_decided(nodes@, prev@, found.order@[b] as int, entries@[b]));
                lemma_own_index(graph@, found.order@[a] as int);
                lemma_own_index(graph@, found.order@[b] as int);
            }
            assert forall|t: int| 0 <= t < entries@.len() implies (#[trigger] entries@[t]).output_values@.len()
                == 0 by {
                assert(entry_decided(nodes@, prev@, found.order@[t] as int, entries@[t]));
            }
        }
        carry_over(&mut prev.nodes, &mut entries);
        let contexts = keep_contexts(nodes, &mut prev.contexts);
        let next = RuntimeGraph { nodes: entries, contexts };
        proof {
            assert forall|q: int| 0 <= q < found.order@.len() implies node_planned(
                graph@.nodes,
                old(prev)@,
                found.order@[q] as int,
                #[trigger] next@[q],
            ) by {
                assert(entry_decided(nodes@, old(prev)@, found.order@[q] as int, decided[q]));
                assert(same_decision(decided[q], next@[q]));
            }
            lemma_plan(graph@, old(prev)@, next@, found.order@);
        }
        next
    }
}

/// What the entries that were decided node by node, in a producers-first
/// order of the reached nodes, amount to: the plan.
proof fn lemma_plan(
    g: GraphView,
    prev: Seq<RuntimeNode>,
    next: Seq<RuntimeNode>,
    order: Seq<usize>,
)
    requires
        valid(g),
        order == plan_order(g.nodes),
        distinct_positions(g.nodes, order),
        producers_first(g.nodes, order),
        forall|k: int|
            0 <= k < g.nodes.len() ==> (listed(order, k) <==> #[trigger] reached(g.nodes, false, k)),
        next.len() == order.len(),
        forall|q: int|
            0 <= q < order.len() ==> node_planned(g.nodes, prev, order[q] as int, #[trigger] next[q]),
    ensures
        planned(g, prev, next),
{
    assert forall|j: int| 0 <= j < next.len() implies (#[trigger] next[j]).node_id
        == g.nodes[plan_order(g.nodes)[j] as int].self_id by {
        assert(node_planned(g.nodes, prev, order[j] as int, next[j]));
    }
    assert(in_plan_order(g.nodes, next));
    assert forall|j: int| 0 <= j < next.len() implies node_index(g.nodes, next[j].node_id)
        == order[j] && has_node(g.nodes, next[j].node_id) && reached(
        g.nodes,
        false,
        order[j] as int,
    ) by {
        assert(node_planned(g.nodes, prev, order[j] as int, next[j]));
        assert(order[j] < g.nodes.len());
        lemma_own_index(g, order[j] as int);
        assert(listed(order, order[j] as int));
    }
    assert forall|a: int, b: int| 0 <= a < b < next.len() implies (#[trigger] next[a]).node_id != (
    #[trigger] next[b]).node_id by {
        assert(node_index(g.nodes, next[a].node_id) == order[a]);
        assert(node_index(g.nodes, next[b].node_id) == order[b]);
        assert(order[a] != order[b]);
    }
    assert forall|j: int| 0 <= j < next.len() implies #[trigger] entry_planned(
        g.nodes,
        prev,
        next,
        j,
    ) by {
        assert(node_index(g.nodes, next[j].node_id) == order[j]);
        assert(node_planned(g.nodes, prev, order[j] as int, next[j]));
    }
    assert forall|k: int| #[trigger] reached(g.nodes, false, k) implies has_entry(
        next,
        g.nodes[k].self_id,
    ) by {
        crate::topology::lemma_reached_cases(g.nodes, false, k);
        assert(listed(order, k));
        let q = choose|q: int| 0 <= q < order.len() && #[trigger] order[q] == k;
        assert(node_planned(g.nodes, prev, order[q] as int, next[q]));
        assert(next[q].node_id == g.nodes[k].self_id);
    }
    assert forall|j: int, p: int|
        0 <= j < next.len() && #[trigger] edge(
            g.nodes,
            false,
            node_index(g.nodes, next[j].node_id),
            p,
        ) implies entry_before(next, j, g.nodes[p].self_id) by {
        assert(node_index(g.nodes, next[j].node_id) == order[j]);
        assert(edge(g.nodes, false, order[j] as int, p));
        assert(listed_before(order, j, p));
        let q = choose|q: int| 0 <= q < j && q < order.len() && #[trigger] order[q] == p;
        assert(node_planned(g.nodes, prev, order[q] as int, next[q]));
        assert(next[q].node_id == g.nodes[p].self_id);
    }
}

impl Preprocess {
    /// Validates the graph and, if it is valid, plans the cycle that
    /// follows `prev`. A graph with a fault is reported and `prev` stays as
    /// it is.
    pub fn checked_run(&self, graph: &Graph, prev: &mut RuntimeGraph) -> (next: Result<
        RuntimeGraph,
        crate::validate::ValidationError,
    >)
        ensures
            match next {
                Ok(plan) => valid(graph@) && planned(graph@, old(prev)@, plan@) && plan.contexts@
                    == contexts_of(graph@.nodes, old(prev).contexts@) && final(prev)@.len() == 0
                    && final(prev).contexts@.len() == 0,
                Err(fault) => crate::validate::first_fault(graph@) == Some(fault) && !valid(graph@)
                    && *final(prev) == *old(prev),
            },
    {
        match graph.validate() {
            Ok(()) => Ok(self.run(graph, prev)),
            Err(fault) => Err(fault),
        }
    }
}

impl RuntimeGraph {
    /// Plans the next cycle in place: the plan that `self` held is the
    /// previous cycle, and the new plan takes its place.
    pub fn run(&mut self, graph: &Graph)
        requires
            valid(graph@),
        ensures
            planned(graph@, old(self)@, final(self)@),
            final(self).contexts@ == contexts_of(graph@.nodes, old(self).contexts@),
    {
        let next = Preprocess {  }.run(graph, self);
        *self = next;
    }
}

} // verus!
