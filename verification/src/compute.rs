use crate::cancel::is_cancelled;
use crate::graph::Graph;
use crate::graph::Input;
use crate::graph::Node;
use crate::ident::Id;
use crate::invoke::InvokeArgs;
use crate::invoke::InvokeContext;
use crate::invoke::InvokeError;
use crate::invoke::Invoker;
use crate::invoke::Value;
use crate::runtime_graph::entry_index;
use crate::runtime_graph::find_entry;
use crate::runtime_graph::context_at;
use crate::runtime_graph::find_context;
use crate::runtime_graph::has_context;
use crate::runtime_graph::has_entry;
use crate::runtime_graph::NodeContext;
use crate::runtime_graph::RuntimeGraph;
use crate::runtime_graph::RuntimeNode;
use std::sync::atomic::AtomicBool;
use vstd::prelude::*;

verus! {

/// How a cycle ended, where no call failed fatally.
#[derive(Clone, Copy, PartialEq, Eq, Debug, Structural)]
pub enum Completion {
    /// Every node of the plan was visited.
    Finished,
    /// The cancellation flag was found set; the nodes that had not been
    /// visited were put off.
    Cancelled,
}

/// The value that `input` receives from the plan `entries`: the cached
/// output that its binding names, or `Null` where it is optional and nothing
/// is bound to it. There is none where it is required and nothing is bound
/// to it, or where the producer is not in the plan or has no such value
/// cached.
pub open spec fn input_value(entries: Seq<RuntimeNode>, input: Input) -> Option<Value> {
    match input.binding {
        None => if input.is_required {
            None
        } else {
            Some(Value::Null)
        },
        Some(binding) => if has_entry(entries, binding.output_node_id) && binding.output_index
            < entries[entry_index(entries, binding.output_node_id)].output_values@.len() {
            Some(
                entries[entry_index(
                    entries,
                    binding.output_node_id,
                )].output_values@[binding.output_index as int],
            )
        } else {
            None
        },
    }
}

/// Whether `values` holds, input by input, what `inputs` receive from the
/// plan `entries`.
pub open spec fn gathered(entries: Seq<RuntimeNode>, inputs: Seq<Input>, values: Seq<Value>) -> bool {
    &&& values.len() == inputs.len()
    &&& forall|i: int|
        0 <= i < inputs.len() ==> input_value(entries, #[trigger] inputs[i]) == Some(values[i])
}

/// Whether every one of `inputs` receives a value from the plan `entries`.
pub open spec fn all_supplied(entries: Seq<RuntimeNode>, inputs: Seq<Input>) -> bool {
    forall|i: int| 0 <= i < inputs.len() ==> input_value(entries, #[trigger] inputs[i]) is Some
}

/// Whether `input` cannot be served: it is required and nothing is bound to
/// it, or it is bound to a node that is not in the plan `entries` or whose
/// entry has missing inputs.
pub open spec fn input_cut_off(entries: Seq<RuntimeNode>, input: Input) -> bool {
    match input.binding {
        None => input.is_required,
        Some(binding) => !has_entry(entries, binding.output_node_id) || entries[entry_index(
            entries,
            binding.output_node_id,
        )].has_missing_inputs,
    }
}

/// Whether some input of `node` is cut off.
pub open spec fn cut_off(entries: Seq<RuntimeNode>, node: Node) -> bool {
    exists|i: int| 0 <= i < node.inputs@.len() && input_cut_off(entries, #[trigger] node.inputs@[i])
}

/// Whether `after` stands for the same node as `before`.
pub open spec fn same_node(before: RuntimeNode, after: RuntimeNode) -> bool {
    &&& after.node_id == before.node_id
    &&& after.name == before.name
    &&& after.behavior == before.behavior
    &&& after.is_output == before.is_output
    &&& after.edge_behavior == before.edge_behavior
    &&& after.total_binding_count == before.total_binding_count
}

/// Whether `after` is `before` put off: it does not run in this cycle. A node
/// that was to run is left without output values, so that the next cycle
/// runs it; another keeps what it has cached.
pub open spec fn put_off(before: RuntimeNode, after: RuntimeNode) -> bool {
    &&& same_node(before, after)
    &&& !after.should_execute
    &&& after.has_outputs == (before.has_outputs && !before.should_execute)
    &&& after.output_values@ == if before.should_execute {
        Seq::<Value>::empty()
    } else {
        before.output_values@
    }
}

/// Whether `after` is `before` after a run that gave `outputs`.
pub open spec fn completed(before: RuntimeNode, after: RuntimeNode, outputs: Seq<Value>) -> bool {
    &&& same_node(before, after)
    &&& after.should_execute
    &&& after.has_outputs
    &&& after.has_missing_inputs == before.has_missing_inputs
    &&& after.output_values@ == outputs
    &&& after.failure == before.failure
}

/// What a cycle may do to one entry, whatever the functions do: an entry
/// with missing inputs keeps them; only an entry that was to run runs, and
/// then it has output values and no missing inputs; an entry that was not to
/// run keeps what it has cached; an entry that was to run and did not is left
/// without output values.
pub open spec fn stepped(before: RuntimeNode, after: RuntimeNode) -> bool {
    &&& same_node(before, after)
    &&& before.has_missing_inputs ==> after.has_missing_inputs
    &&& after.should_execute ==> before.should_execute && after.has_outputs
        && !after.has_missing_inputs
    &&& !before.should_execute ==> after.has_outputs == before.has_outputs && after.output_values@
        == before.output_values@ && after.failure == before.failure
    &&& before.should_execute && !after.should_execute ==> !after.has_outputs
        && after.output_values@.len() == 0
    &&& after.failure != before.failure ==> after.failure is Some && after.has_missing_inputs
}

/// Puts an entry off: see `put_off`. With `blamed` the entry is marked as
/// having missing inputs, because a node that it consumes cannot deliver or
/// its function did not do what it had to.
pub fn postpone(entry: &mut RuntimeNode, blamed: bool)
    ensures
        put_off(*old(entry), *final(entry)),
        final(entry).has_missing_inputs == (old(entry).has_missing_inputs || blamed),
        final(entry).failure == old(entry).failure,
{
    if entry.should_execute {
        entry.should_execute = false;
        entry.has_outputs = false;
        entry.output_values = Vec::new();
    }
    if blamed {
        entry.has_missing_inputs = true;
    }
}

/// Records that the function of the entry failed with `error`: the entry is
/// put off, marked as having missing inputs, and keeps the error as it came.
pub fn fail(entry: &mut RuntimeNode, error: InvokeError)
    ensures
        put_off(*old(entry), *final(entry)),
        final(entry).has_missing_inputs,
        final(entry).failure == Some(error),
{
    postpone(entry, true);
    entry.failure = Some(error);
}

/// Records a run: `outputs` are the output values of the entry from now on.
pub fn complete(entry: &mut RuntimeNode, outputs: Vec<Value>)
    requires
        old(entry).should_execute,
    ensures
        completed(*old(entry), *final(entry), outputs@),
{
    entry.has_outputs = true;
    entry.output_values = outputs;
}

/// Collects the values that the inputs of `node` receive from the plan:
/// copies of the cached outputs that the bindings name, and `Null` for every
/// optional input that nothing is bound to. There is no result where some
/// input receives nothing.
pub fn gather_inputs(node: &Node, entries: &Vec<RuntimeNode>) -> (values: Option<InvokeArgs>)
    ensures
        values is Some <==> all_supplied(entries@, node.inputs@),
        values is Some ==> gathered(entries@, node.inputs@, values->0@),
{
    let mut values: Vec<Value> = Vec::new();
    let mut i: usize = 0;
    while i < node.inputs.len()
        invariant
            i <= node.inputs@.len(),
            values@.len() == i,
            forall|a: int|
                0 <= a < i ==> input_value(entries@, #[trigger] node.inputs@[a]) == Some(values@[a]),
        decreases node.inputs@.len() - i,
    {
        let ghost held = values@;
        match node.inputs[i].binding {
            None => {
                if node.inputs[i].is_required {
                    assert(input_value(entries@, node.inputs@[i as int]) is None);
                    return None;
                }
                values.push(Value::Null);
            },
            Some(binding) => {
                match find_entry(entries, binding.output_node_id) {
                    Some(e) => {
                        let index = binding.output_index as usize;
                        if index < entries[e].output_values.len() {
                            values.push(entries[e].output_values[index].duplicate());
                        } else {
                            assert(input_value(entries@, node.inputs@[i as int]) is None);
                            return None;
                        }
                    },
                    None => {
                        assert(input_value(entries@, node.inputs@[i as int]) is None);
                        return None;
                    },
                }
            },
        }
        proof {
            assert forall|a: int| 0 <= a < i + 1 implies input_value(
                entries@,
                #[trigger] node.inputs@[a],
            ) == Some(values@[a]) by {
                if a < i {
                    assert(values@[a] == held[a]);
                }
            }
        }
        i += 1;
    }
    Some(values)
}

/// Whether some input of `node` cannot be served.
pub fn is_cut_off(node: &Node, entries: &Vec<RuntimeNode>) -> (cut: bool)
    ensures
        cut == cut_off(entries@, *node),
{
    let mut i: usize = 0;
    while i < node.inputs.len()
        invariant
            i <= node.inputs@.len(),
            forall|a: int| 0 <= a < i ==> !input_cut_off(entries@, #[trigger] node.inputs@[a]),
        decreases node.inputs@.len() - i,
    {
        match node.inputs[i].binding {
            Some(binding) => {
                match find_entry(entries, binding.output_node_id) {
                    Some(e) => {
                        if entries[e].has_missing_inputs {
                            assert(input_cut_off(entries@, node.inputs@[i as int]));
                            return true;
                        }
                    },
                    None => {
                        assert(input_cut_off(entries@, node.inputs@[i as int]));
                        return true;
                    },
                }
            },
            None => {
                if node.inputs[i].is_required {
                    assert(input_cut_off(entries@, node.inputs@[i as int]));
                    return true;
                }
            },
        }
        i += 1;
    }
    false
}

/// As many `Null` values as `count` says: the slots that a function fills.
pub fn empty_slots(count: usize) -> (slots: InvokeArgs)
    ensures
        slots@.len() == count,
        forall|i: int| 0 <= i < count ==> #[trigger] slots@[i] == Value::Null,
{
    let mut slots: Vec<Value> = Vec::new();
    let mut i: usize = 0;
    while i < count
        invariant
            i <= count,
            slots@.len() == i,
            forall|a: int| 0 <= a < i ==> #[trigger] slots@[a] == Value::Null,
        decreases count - i,
    {
        slots.push(Value::Null);
        i += 1;
    }
    slots
}

/// Whether `after` is `before` put off without blame: it does not run, and
/// its missing inputs and its failure are as they were.
pub open spec fn halted(before: RuntimeNode, after: RuntimeNode) -> bool {
    &&& put_off(before, after)
    &&& after.has_missing_inputs == before.has_missing_inputs
    &&& after.failure == before.failure
}

/// Whether `after` is `before` put off with blame: it does not run and is
/// marked as having missing inputs; its failure is as it was.
pub open spec fn blamed(before: RuntimeNode, after: RuntimeNode) -> bool {
    &&& put_off(before, after)
    &&& after.has_missing_inputs
    &&& after.failure == before.failure
}

/// What the result of a call makes of the entry whose function was called,
/// and what is handed on as fatal.
///
/// A call that succeeds and fills as many outputs as the node has completes
/// the entry; one that succeeds with another number of outputs has failed
/// without an error of its own. A fatal error puts the entry off without
/// blame and is handed on. Any other error stays with the entry, which is
/// marked as having missing inputs.
pub open spec fn settled(
    before: RuntimeNode,
    after: RuntimeNode,
    expected: int,
    result: Result<(), InvokeError>,
    outputs: Seq<Value>,
    fatal: Option<InvokeError>,
) -> bool {
    match result {
        Ok(()) => fatal is None && if outputs.len() == expected {
            completed(before, after, outputs)
        } else {
            blamed(before, after)
        },
        Err(error) => if error is Fatal {
            fatal == Some(error) && halted(before, after)
        } else {
            &&& fatal is None
            &&& put_off(before, after)
            &&& after.has_missing_inputs
            &&& after.failure == Some(error)
        },
    }
}

/// Settles an entry whose function was called: `result` is what the call
/// gave, `outputs` what it left in the slots, and `expected` the number of
/// outputs of the node. See `settled`.
pub fn settle(
    entry: &mut RuntimeNode,
    expected: usize,
    result: Result<(), InvokeError>,
    outputs: Vec<Value>,
) -> (fatal: Option<InvokeError>)
    requires
        old(entry).should_execute,
    ensures
        settled(*old(entry), *final(entry), expected as int, result, outputs@, fatal),
{
    match result {
        Ok(()) => {
            if outputs.len() == expected {
                complete(entry, outputs);
            } else {
                postpone(entry, true);
            }
            None
        },
        Err(error) => {
            let fatal = match &error {
                InvokeError::Fatal(_) => true,
                InvokeError::Recoverable(_) => false,
            };
            if fatal {
                postpone(entry, false);
                Some(error)
            } else {
                fail(entry, error);
                None
            }
        },
    }
}

/// What a visit makes of an entry, where `seen` is the plan as the visit
/// finds it.
///
/// An entry whose node has left the graph is put off with blame. An entry
/// that has missing inputs is put off without blame. An entry one of whose
/// inputs cannot be served is put off with blame. Of the others, an entry
/// that is not to run stays as it is; an entry that is to run and does not
/// receive a value for every input is put off with blame; and for an entry
/// that receives them all the function is called and the result settled.
pub open spec fn visited(
    nodes: Seq<Node>,
    seen: Seq<RuntimeNode>,
    before: RuntimeNode,
    after: RuntimeNode,
    fatal: Option<InvokeError>,
) -> bool {
    if !crate::graph::has_node(nodes, before.node_id) {
        fatal is None && blamed(before, after)
    } else {
        let node = nodes[crate::graph::node_index(nodes, before.node_id)];
        if before.has_missing_inputs {
            fatal is None && halted(before, after)
        } else if cut_off(seen, node) {
            fatal is None && blamed(before, after)
        } else if !before.should_execute {
            fatal is None && after == before
        } else if !all_supplied(seen, node.inputs@) {
            fatal is None && blamed(before, after)
        } else {
            exists|result: Result<(), InvokeError>, outputs: Seq<Value>| #[trigger]
                settled(before, after, node.outputs@.len() as int, result, outputs, fatal)
        }
    }
}

/// The plan as the visit of position `j` finds it: the entries before `j`
/// as the cycle leaves them, the others as the cycle found them.
pub open spec fn at_visit(before: Seq<RuntimeNode>, after: Seq<RuntimeNode>, j: int) -> Seq<
    RuntimeNode,
> {
    Seq::new(
        before.len(),
        |i: int|
            if i < j {
                after[i]
            } else {
                before[i]
            },
    )
}

/// Whether the entry at `j` is what a visit makes of it.
pub open spec fn visited_at(
    nodes: Seq<Node>,
    before: Seq<RuntimeNode>,
    after: Seq<RuntimeNode>,
    j: int,
    fatal: Option<InvokeError>,
) -> bool {
    visited(nodes, at_visit(before, after, j), before[j], after[j], fatal)
}

/// Whether the cycle visited the entries before `stop`, one after the other
/// and none with a fatal error, and put the others off without blame.
pub open spec fn ran_until(
    nodes: Seq<Node>,
    before: Seq<RuntimeNode>,
    after: Seq<RuntimeNode>,
    stop: int,
) -> bool {
    &&& after.len() == before.len()
    &&& forall|j: int|
        0 <= j < stop && j < before.len() ==> #[trigger] visited_at(
            nodes,
            before,
            after,
            j,
            None::<InvokeError>,
        )
    &&& forall|j: int|
        stop <= j < before.len() && 0 <= j ==> halted(#[trigger] before[j], after[j])
}

/// An entry that was to run and still is holds one output value for every
/// output of its node.
pub proof fn lemma_ran_fills_outputs(
    nodes: Seq<Node>,
    seen: Seq<RuntimeNode>,
    before: RuntimeNode,
    after: RuntimeNode,
    fatal: Option<InvokeError>,
)
    requires
        visited(nodes, seen, before, after, fatal),
        before.should_execute,
        after.should_execute,
    ensures
        crate::graph::has_node(nodes, before.node_id),
        after.output_values@.len() == nodes[crate::graph::node_index(
            nodes,
            before.node_id,
        )].outputs@.len(),
        after.has_outputs,
        !after.has_missing_inputs,
{
}

/// An entry that newly has missing inputs stands for a node that has left
/// the graph, or has an input that cannot be served or that receives no
/// value, or its function was called and did not do what it had to.
pub proof fn lemma_newly_missing(
    nodes: Seq<Node>,
    seen: Seq<RuntimeNode>,
    before: RuntimeNode,
    after: RuntimeNode,
    fatal: Option<InvokeError>,
)
    requires
        visited(nodes, seen, before, after, fatal),
        !before.has_missing_inputs,
        after.has_missing_inputs,
    ensures
        !after.should_execute,
        !crate::graph::has_node(nodes, before.node_id) || cut_off(
            seen,
            nodes[crate::graph::node_index(nodes, before.node_id)],
        ) || (before.should_execute && (!all_supplied(
            seen,
            nodes[crate::graph::node_index(nodes, before.node_id)].inputs@,
        ) || exists|result: Result<(), InvokeError>, outputs: Seq<Value>| #[trigger]
            settled(
                before,
                after,
                nodes[crate::graph::node_index(nodes, before.node_id)].outputs@.len() as int,
                result,
                outputs,
                fatal,
            ) && !(result is Ok && outputs.len() == nodes[crate::graph::node_index(
                nodes,
                before.node_id,
            )].outputs@.len()))),
{
    if crate::graph::has_node(nodes, before.node_id) {
        let node = nodes[crate::graph::node_index(nodes, before.node_id)];
        if !cut_off(seen, node) && before.should_execute && all_supplied(seen, node.inputs@) {
            let (result, outputs) = choose|result: Result<(), InvokeError>, outputs: Seq<Value>| #[trigger]
                settled(before, after, node.outputs@.len() as int, result, outputs, fatal);
            assert(settled(before, after, node.outputs@.len() as int, result, outputs, fatal));
        }
    }
}

/// Whether input `input` of an entry at position `j` is bound to a node whose
/// entry stands before `j` and has missing inputs.
pub open spec fn input_blocked(entries: Seq<RuntimeNode>, j: int, input: Input) -> bool {
    &&& input.binding is Some
    &&& has_entry(entries, input.binding->0.output_node_id)
    &&& entry_index(entries, input.binding->0.output_node_id) < j
    &&& entries[entry_index(entries, input.binding->0.output_node_id)].has_missing_inputs
}

/// Whether the entry at `j` stands for a node of the graph one of whose
/// inputs is blocked.
pub open spec fn blocked(nodes: Seq<Node>, entries: Seq<RuntimeNode>, j: int) -> bool {
    &&& crate::graph::has_node(nodes, entries[j].node_id)
    &&& exists|i: int|
        0 <= i < nodes[crate::graph::node_index(nodes, entries[j].node_id)].inputs@.len()
            && input_blocked(
            entries,
            j,
            #[trigger] nodes[crate::graph::node_index(nodes, entries[j].node_id)].inputs@[i],
        )
}

/// Whether two plans hold entries for the same nodes at the same positions.
pub open spec fn same_ids(a: Seq<RuntimeNode>, b: Seq<RuntimeNode>) -> bool {
    &&& a.len() == b.len()
    &&& forall|j: int| 0 <= j < a.len() ==> (#[trigger] a[j]).node_id == b[j].node_id
}

/// Two plans with the same nodes at the same positions find every node at
/// the same position.
pub proof fn lemma_same_ids(a: Seq<RuntimeNode>, b: Seq<RuntimeNode>, id: Id)
    requires
        same_ids(a, b),
    ensures
        has_entry(a, id) == has_entry(b, id),
        has_entry(a, id) ==> entry_index(a, id) == entry_index(b, id),
{
    if has_entry(a, id) {
        let w = choose|i: int| 0 <= i < a.len() && a[i].node_id == id;
        assert(a[w].node_id == b[w].node_id);
        assert(has_entry(b, id));
    }
    if has_entry(b, id) {
        let w = choose|i: int| 0 <= i < b.len() && b[i].node_id == id;
        assert(a[w].node_id == b[w].node_id);
        assert(has_entry(a, id));
        crate::runtime_graph::lemma_entry_index_exists(a, id);
        let f = entry_index(a, id);
        assert(crate::runtime_graph::entry_at(b, id, f)) by {
            assert(a[f].node_id == b[f].node_id);
            assert forall|j: int| 0 <= j < f implies b[j].node_id != id by {
                assert(a[j].node_id == b[j].node_id);
            }
        }
        crate::runtime_graph::lemma_entry_index(a, id, f);
        crate::runtime_graph::lemma_entry_index(b, id, f);
    }
}

/// Whether `after` holds the contexts of `before`, each in its place and
/// under its identifier, with others, if any, behind them.
pub open spec fn contexts_grown(before: Seq<NodeContext>, after: Seq<NodeContext>) -> bool {
    &&& before.len() <= after.len()
    &&& forall|c: int| 0 <= c < before.len() ==> (#[trigger] after[c]).node_id == before[c].node_id
}

/// Whether the plan `entries` holds an entry for the node `id` that is to
/// run.
pub open spec fn runs_node(entries: Seq<RuntimeNode>, id: Id) -> bool {
    exists|j: int|
        0 <= j < entries.len() && (#[trigger] entries[j]).node_id == id && entries[j].should_execute
}

/// The executor: it runs the nodes of a plan.
#[derive(Clone, Copy, Debug)]
pub struct Compute {}

impl Default for Compute {
    fn default() -> (executor: Compute) {
        Compute {  }
    }
}

/// Whether `after` holds the contexts of `before`, each in its place and
/// under its identifier, and behind them at most one more, for the node
/// `id`. Only a context of the node `id` may have changed.
pub open spec fn contexts_touched(before: Seq<NodeContext>, after: Seq<NodeContext>, id: Id) -> bool {
    &&& before.len() <= after.len() <= before.len() + 1
    &&& forall|c: int|
        0 <= c < before.len() ==> (#[trigger] after[c]).node_id == before[c].node_id && (
        before[c].node_id != id ==> after[c] == before[c])
    &&& after.len() > before.len() ==> after.last().node_id == id && !has_context(before, id)
}

/// The place of the context of the node `id`: where there is none yet, an
/// empty one is put at the end.
pub fn context_slot(contexts: &mut Vec<NodeContext>, id: Id) -> (slot: usize)
    ensures
        context_at(final(contexts)@, id, slot as int),
        has_context(old(contexts)@, id) ==> final(contexts)@ == old(contexts)@,
        !has_context(old(contexts)@, id) ==> final(contexts)@.len() == old(contexts)@.len() + 1
            && final(contexts)@.drop_last() == old(contexts)@ && slot == old(contexts)@.len()
            && final(contexts)@.last().context.values@.len() == 0,
{
    match find_context(contexts, id) {
        Some(slot) => slot,
        None => {
            contexts.push(NodeContext { node_id: id, context: InvokeContext::default() });
            assert(contexts@.drop_last() == old(contexts)@);
            assert forall|j: int| 0 <= j < contexts@.len() - 1 implies contexts@[j].node_id != id by {
                assert(contexts@[j] == old(contexts)@[j]);
            }
            contexts.len() - 1
        },
    }
}

/// What one visit makes of the entry at `pos`: the entry is put off, or its
/// function is called and the entry completed.
fn visit<I: Invoker>(
    graph: &Graph,
    invoker: &I,
    entries: &mut Vec<RuntimeNode>,
    contexts: &mut Vec<NodeContext>,
    pos: usize,
) -> (fatal: Option<InvokeError>)
    requires
        pos < old(entries)@.len(),
    ensures
        final(entries)@.len() == old(entries)@.len(),
        contexts_touched(old(contexts)@, final(contexts)@, old(entries)@[pos as int].node_id),
        !old(entries)@[pos as int].should_execute ==> final(contexts)@ == old(contexts)@,
        forall|j: int|
            0 <= j < old(entries)@.len() && j != pos ==> final(entries)@[j] == old(entries)@[j],
        stepped(old(entries)@[pos as int], final(entries)@[pos as int]),
        visited(
            graph@.nodes,
            old(entries)@,
            old(entries)@[pos as int],
            final(entries)@[pos as int],
            fatal,
        ),
        fatal is None ==> (old(entries)@[pos as int].should_execute ==> final(entries)@[pos as int].should_execute || final(entries)@[pos as int].has_missing_inputs),
        fatal is None ==> (crate::graph::has_node(graph@.nodes, old(entries)@[pos as int].node_id)
            && cut_off(
            old(entries)@,
            graph@.nodes[crate::graph::node_index(graph@.nodes, old(entries)@[pos as int].node_id)],
        ) ==> final(entries)@[pos as int].has_missing_inputs),
{
    let id = entries[pos].node_id;
    match graph.node_by_id(id) {
        None => {
            postpone(&mut entries[pos], true);
            None
        },
        Some(node) => {
            if entries[pos].has_missing_inputs {
                postpone(&mut entries[pos], false);
                None
            } else if is_cut_off(node, entries) {
                postpone(&mut entries[pos], true);
                None
            } else if entries[pos].should_execute {
                match gather_inputs(node, entries) {
                    None => {
                        postpone(&mut entries[pos], true);
                        None
                    },
                    Some(inputs) => {
                        let mut outputs = empty_slots(node.outputs.len());
                        let slot = context_slot(contexts, id);
                        let ghost ready = contexts@;
                        let result = invoker.invoke(
                            node.function_id,
                            &mut contexts[slot].context,
                            &inputs,
                            &mut outputs,
                        );
                        proof {
                            assert(contexts@.len() == ready.len());
                            assert forall|c: int| 0 <= c < contexts@.len() && c != slot implies contexts@[c]
                                == ready[c] by {}
                            assert(contexts@[slot as int].node_id == id);
                        }
                        let ghost given = result;
                        let ghost filled = outputs@;
                        let fatal = settle(&mut entries[pos], node.outputs.len(), result, outputs);
                        proof {
                            assert(settled(
                                old(entries)@[pos as int],
                                entries@[pos as int],
                                node.outputs@.len() as int,
                                given,
                                filled,
                                fatal,
                            ));
                        }
                        fatal
                    },
                }
            } else {
                None
            }
        },
    }
}

impl Compute {
    /// Runs the cycle that `runtime_graph` plans, entry by entry in its
    /// order.
    ///
    /// Between two entries the cancellation flag is read. Until it is found
    /// set, and until a call fails fatally, every entry is visited: see
    /// `visited` for what a visit makes of an entry. An entry that is to run
    /// and receives a value for every input has its function called, with
    /// the scratch values of its node, and the result settled: see
    /// `settled`. Once the flag is found set, and after a fatal failure,
    /// the remaining entries are put off without blame. A fatal error is
    /// handed back as it came.
    pub fn run<I: Invoker>(
        &self,
        graph: &Graph,
        invoker: &I,
        runtime_graph: &mut RuntimeGraph,
        cancel: &AtomicBool,
    ) -> (ended: Result<Completion, InvokeError>)
        ensures
            old(runtime_graph)@.len() == 0 ==> ended == Ok::<Completion, InvokeError>(
                Completion::Finished,
            ),
            match ended {
                Ok(Completion::Finished) => ran_until(
                    graph@.nodes,
                    old(runtime_graph)@,
                    final(runtime_graph)@,
                    old(runtime_graph)@.len() as int,
                ),
                Ok(Completion::Cancelled) => exists|stop: int|
                    0 <= stop < old(runtime_graph)@.len() && #[trigger] ran_until(
                        graph@.nodes,
                        old(runtime_graph)@,
                        final(runtime_graph)@,
                        stop,
                    ),
                Err(error) => exists|stop: int|
                    0 <= stop < old(runtime_graph)@.len() && #[trigger] ran_until(
                        graph@.nodes,
                        old(runtime_graph)@,
                        final(runtime_graph)@,
                        stop,
                    ) && visited_at(
                        graph@.nodes,
                        old(runtime_graph)@,
                        final(runtime_graph)@,
                        stop,
                        Some(error),
                    ),
            },
            forall|j: int|
                0 <= j < old(runtime_graph)@.len() && (#[trigger] old(runtime_graph)@[j]).should_execute && final(runtime_graph)@[j].should_execute ==> filled(
                    graph@.nodes,
                    final(runtime_graph)@[j],
                ),
            same_ids(old(runtime_graph)@, final(runtime_graph)@),
            contexts_grown(old(runtime_graph).contexts@, final(runtime_graph).contexts@),
            forall|c: int|
                old(runtime_graph).contexts@.len() <= c < final(runtime_graph).contexts@.len()
                    ==> runs_node(
                    old(runtime_graph)@,
                    (#[trigger] final(runtime_graph).contexts@[c]).node_id,
                ),
            forall|c: int|
                0 <= c < old(runtime_graph).contexts@.len() ==> (#[trigger] final(runtime_graph).contexts@[c]) == old(runtime_graph).contexts@[c] || runs_node(
                    old(runtime_graph)@,
                    old(runtime_graph).contexts@[c].node_id,
                ),
            forall|j: int|
                0 <= j < old(runtime_graph)@.len() ==> stepped(
                    #[trigger] old(runtime_graph)@[j],
                    final(runtime_graph)@[j],
                ),
            ended is Ok && ended->Ok_0 == Completion::Finished ==> forall|j: int|
                0 <= j < old(runtime_graph)@.len() && (#[trigger] old(runtime_graph)@[j]).should_execute
                    ==> final(runtime_graph)@[j].should_execute || final(runtime_graph)@[j].has_missing_inputs,
            ended is Ok && ended->Ok_0 == Completion::Finished ==> forall|j: int|
                0 <= j < final(runtime_graph)@.len() && #[trigger] blocked(
                    graph@.nodes,
                    final(runtime_graph)@,
                    j,
                ) ==> final(runtime_graph)@[j].has_missing_inputs,
    {
        let count = runtime_graph.nodes.len();
        let mut pos: usize = 0;
        let mut cancelled = false;
        let mut failure: Option<InvokeError> = None;
        let ghost mut stop: int = 0;
        while pos < count
            invariant
                pos <= count,
                count == old(runtime_graph)@.len(),
                0 <= stop <= pos,
                !cancelled && failure is None ==> stop == pos,
                cancelled || failure is Some ==> stop < pos,
                !(cancelled && failure is Some),
                forall|j: int|
                    0 <= j < stop ==> #[trigger] visited_at(
                        graph@.nodes,
                        old(runtime_graph)@,
                        runtime_graph@,
                        j,
                        None::<InvokeError>,
                    ),
                forall|j: int|
                    stop <= j < pos ==> halted(#[trigger] old(runtime_graph)@[j], runtime_graph@[j]),
                failure is Some ==> visited_at(
                    graph@.nodes,
                    old(runtime_graph)@,
                    runtime_graph@,
                    stop,
                    failure,
                ),
                same_ids(old(runtime_graph)@, runtime_graph@),
                contexts_grown(old(runtime_graph).contexts@, runtime_graph.contexts@),
                forall|c: int|
                    old(runtime_graph).contexts@.len() <= c < runtime_graph.contexts@.len()
                        ==> runs_node(
                        old(runtime_graph)@,
                        (#[trigger] runtime_graph.contexts@[c]).node_id,
                    ),
                forall|c: int|
                    0 <= c < old(runtime_graph).contexts@.len() ==> (
                    #[trigger] runtime_graph.contexts@[c]) == old(runtime_graph).contexts@[c]
                        || runs_node(old(runtime_graph)@, old(runtime_graph).contexts@[c].node_id),
                forall|j: int|
                    0 <= j < pos ==> stepped(#[trigger] old(runtime_graph)@[j], runtime_graph@[j]),
                forall|j: int|
                    pos <= j < count ==> (#[trigger] runtime_graph@[j]) == old(runtime_graph)@[j],
                !cancelled && failure is None ==> forall|j: int|
                    0 <= j < pos && (#[trigger] old(runtime_graph)@[j]).should_execute
                        ==> runtime_graph@[j].should_execute || runtime_graph@[j].has_missing_inputs,
                !cancelled && failure is None ==> forall|j: int|
                    0 <= j < pos && #[trigger] blocked(graph@.nodes, runtime_graph@, j)
                        ==> runtime_graph@[j].has_missing_inputs,
            decreases count - pos,
        {
            if !cancelled && failure.is_none() && is_cancelled(cancel) {
                cancelled = true;
            }
            let ghost before = runtime_graph@;
            let ghost slots = runtime_graph.contexts@;
            if cancelled || failure.is_some() {
                postpone(&mut runtime_graph.nodes[pos], false);
                proof {
                    lemma_step(
                        graph@.nodes,
                        old(runtime_graph)@,
                        before,
                        runtime_graph@,
                        pos as int,
                        stop,
                        failure,
                    );
                    assert(before[pos as int] == old(runtime_graph)@[pos as int]);
                }
            } else {
                failure = visit(
                    graph,
                    invoker,
                    &mut runtime_graph.nodes,
                    &mut runtime_graph.contexts,
                    pos,
                );
                proof {
                    lemma_step(
                        graph@.nodes,
                        old(runtime_graph)@,
                        before,
                        runtime_graph@,
                        pos as int,
                        stop,
                        None::<InvokeError>,
                    );
                    lemma_visit_recorded(
                        graph@.nodes,
                        old(runtime_graph)@,
                        before,
                        runtime_graph@,
                        pos as int,
                        failure,
                    );
                    if failure is None {
                        stop = pos + 1;
                    }
                }
                proof {
                    assert(before[pos as int] == old(runtime_graph)@[pos as int]);
                    assert forall|c: int|
                        old(runtime_graph).contexts@.len() <= c
                            < runtime_graph.contexts@.len() implies runs_node(
                        old(runtime_graph)@,
                        (#[trigger] runtime_graph.contexts@[c]).node_id,
                    ) by {
                        if c < slots.len() {
                            assert(runtime_graph.contexts@[c].node_id == slots[c].node_id);
                        } else {
                            assert(runtime_graph.contexts@ != slots);
                            assert(old(runtime_graph)@[pos as int].should_execute);
                            assert(runtime_graph.contexts@.last().node_id == old(runtime_graph)@[pos as int].node_id);
                        }
                    }
                }
                proof {
                    assert(before[pos as int] == old(runtime_graph)@[pos as int]);
                    assert forall|c: int|
                        0 <= c < old(runtime_graph).contexts@.len() implies (
                    #[trigger] runtime_graph.contexts@[c]) == old(runtime_graph).contexts@[c]
                        || runs_node(
                        old(runtime_graph)@,
                        old(runtime_graph).contexts@[c].node_id,
                    ) by {
                        assert(slots[c].node_id == old(runtime_graph).contexts@[c].node_id);
                        if runtime_graph.contexts@[c] != slots[c] {
                            assert(old(runtime_graph)@[pos as int].should_execute);
                            assert(slots[c].node_id == old(runtime_graph)@[pos as int].node_id);
                        }
                    }
                    assert forall|c: int|
                        0 <= c < old(runtime_graph).contexts@.len() implies (
                    #[trigger] runtime_graph.contexts@[c]).node_id == old(runtime_graph).contexts@[c].node_id by {
                        assert(slots[c].node_id == old(runtime_graph).contexts@[c].node_id);
                    }
                }
                proof {
                    if failure is None {
                        assert forall|j: int|
                            0 <= j < pos + 1 && #[trigger] blocked(
                                graph@.nodes,
                                runtime_graph@,
                                j,
                            ) implies runtime_graph@[j].has_missing_inputs by {
                            lemma_blocked(graph@.nodes, before, runtime_graph@, pos as int, j);
                        }
                    }
                }
            }
            proof {
                assert forall|j: int| 0 <= j < pos + 1 implies stepped(
                    #[trigger] old(runtime_graph)@[j],
                    runtime_graph@[j],
                ) by {
                    if j < pos {
                        assert(runtime_graph@[j] == before[j]);
                    } else {
                        assert(before[j] == old(runtime_graph)@[j]);
                    }
                }
                assert forall|j: int| pos + 1 <= j < count implies (#[trigger] runtime_graph@[j]) == old(runtime_graph)@[j] by {
                    assert(runtime_graph@[j] == before[j]);
                }
                assert forall|j: int| 0 <= j < count implies (#[trigger] old(runtime_graph)@[j]).node_id == runtime_graph@[j].node_id by {
                    if j != pos {
                        assert(runtime_graph@[j] == before[j]);
                    } else {
                        assert(before[j].node_id == old(runtime_graph)@[j].node_id);
                    }
                }
                if !cancelled && failure is None {
                    assert forall|j: int|
                        0 <= j < pos + 1 && (#[trigger] old(runtime_graph)@[j]).should_execute implies runtime_graph@[j].should_execute
                        || runtime_graph@[j].has_missing_inputs by {
                        if j < pos {
                            assert(runtime_graph@[j] == before[j]);
                        } else {
                            assert(before[j] == old(runtime_graph)@[j]);
                        }
                    }
                }
            }
            pos += 1;
        }
        proof {
            assert(ran_until(graph@.nodes, old(runtime_graph)@, runtime_graph@, stop));
            assert forall|j: int|
                0 <= j < old(runtime_graph)@.len() && (#[trigger] old(runtime_graph)@[j]).should_execute && runtime_graph@[j].should_execute implies filled(
                graph@.nodes,
                runtime_graph@[j],
            ) by {
                lemma_outputs_filled(graph@.nodes, old(runtime_graph)@, runtime_graph@, stop, j);
            }
        }
        match failure {
            Some(error) => Err(error),
            None => if cancelled {
                Ok(Completion::Cancelled)
            } else {
                Ok(Completion::Finished)
            },
        }
    }
}

/// What was recorded of the visits before position `pos` stays recorded
/// when the entry at `pos` changes.
proof fn lemma_visits_kept(
    nodes: Seq<Node>,
    before: Seq<RuntimeNode>,
    current: Seq<RuntimeNode>,
    next: Seq<RuntimeNode>,
    pos: int,
    j: int,
    fatal: Option<InvokeError>,
)
    requires
        current.len() == before.len(),
        next.len() == before.len(),
        0 <= j < pos < before.len(),
        forall|q: int| 0 <= q < before.len() && q != pos ==> next[q] == current[q],
        visited_at(nodes, before, current, j, fatal),
    ensures
        visited_at(nodes, before, next, j, fatal),
{
    assert(at_visit(before, next, j) =~= at_visit(before, current, j));
    assert(next[j] == current[j]);
}

/// What a visit finds is the plan as `at_visit` has it.
proof fn lemma_visit_recorded(
    nodes: Seq<Node>,
    before: Seq<RuntimeNode>,
    current: Seq<RuntimeNode>,
    next: Seq<RuntimeNode>,
    pos: int,
    fatal: Option<InvokeError>,
)
    requires
        current.len() == before.len(),
        next.len() == before.len(),
        0 <= pos < before.len(),
        forall|q: int| 0 <= q < before.len() && q != pos ==> next[q] == current[q],
        forall|q: int| pos <= q < before.len() ==> current[q] == before[q],
        visited(nodes, current, current[pos], next[pos], fatal),
    ensures
        visited_at(nodes, before, next, pos, fatal),
        fatal is Some ==> halted(before[pos], next[pos]),
{
    assert(at_visit(before, next, pos) =~= current);
    if fatal is Some {
        let node = nodes[crate::graph::node_index(nodes, current[pos].node_id)];
        let (result, outputs) = choose|result: Result<(), InvokeError>, outputs: Seq<Value>| #[trigger]
            settled(current[pos], next[pos], node.outputs@.len() as int, result, outputs, fatal);
        assert(settled(current[pos], next[pos], node.outputs@.len() as int, result, outputs, fatal));
    }
}

/// What one step of the cycle keeps: the entries before `stop` were visited,
/// those from `stop` to `pos` put off without blame.
proof fn lemma_step(
    nodes: Seq<Node>,
    before: Seq<RuntimeNode>,
    current: Seq<RuntimeNode>,
    next: Seq<RuntimeNode>,
    pos: int,
    stop: int,
    fatal: Option<InvokeError>,
)
    requires
        current.len() == before.len(),
        next.len() == before.len(),
        0 <= stop <= pos < before.len(),
        forall|q: int| 0 <= q < before.len() && q != pos ==> next[q] == current[q],
        forall|j: int|
            0 <= j < stop ==> #[trigger] visited_at(nodes, before, current, j, None::<InvokeError>),
        forall|j: int| stop <= j < pos ==> halted(#[trigger] before[j], current[j]),
        stop < pos && fatal is Some ==> visited_at(nodes, before, current, stop, fatal),
    ensures
        forall|j: int|
            0 <= j < stop ==> #[trigger] visited_at(nodes, before, next, j, None::<InvokeError>),
        forall|j: int| stop <= j < pos ==> halted(#[trigger] before[j], next[j]),
        stop < pos && fatal is Some ==> visited_at(nodes, before, next, stop, fatal),
{
    assert forall|j: int| 0 <= j < stop implies #[trigger] visited_at(
        nodes,
        before,
        next,
        j,
        None::<InvokeError>,
    ) by {
        lemma_visits_kept(nodes, before, current, next, pos, j, None::<InvokeError>);
    }
    assert forall|j: int| stop <= j < pos implies halted(#[trigger] before[j], next[j]) by {
        assert(next[j] == current[j]);
    }
    if stop < pos && fatal is Some {
        lemma_visits_kept(nodes, before, current, next, pos, stop, fatal);
    }
}

/// Of a cycle that ran until `stop`, every entry that was to run and still
/// is holds one output value for every output of its node.
proof fn lemma_outputs_filled(
    nodes: Seq<Node>,
    before: Seq<RuntimeNode>,
    after: Seq<RuntimeNode>,
    stop: int,
    j: int,
)
    requires
        ran_until(nodes, before, after, stop),
        0 <= j < before.len(),
        before[j].should_execute,
        after[j].should_execute,
    ensures
        filled(nodes, after[j]),
{
    if j < stop {
        assert(visited_at(nodes, before, after, j, None::<InvokeError>));
        lemma_ran_fills_outputs(
            nodes,
            at_visit(before, after, j),
            before[j],
            after[j],
            None::<InvokeError>,
        );
        assert(after[j].node_id == before[j].node_id);
    } else {
        assert(halted(before[j], after[j]));
    }
}

/// Whether `entry` stands for a node of the graph and holds one output
/// value for every output of that node.
pub open spec fn filled(nodes: Seq<Node>, entry: RuntimeNode) -> bool {
    &&& crate::graph::has_node(nodes, entry.node_id)
    &&& entry.output_values@.len() == nodes[crate::graph::node_index(
        nodes,
        entry.node_id,
    )].outputs@.len()
}

/// What a visit of the entry at `pos` keeps of the entries before it, and
/// what it adds: an entry one of whose inputs is blocked has missing inputs.
proof fn lemma_blocked(
    nodes: Seq<Node>,
    before: Seq<RuntimeNode>,
    after: Seq<RuntimeNode>,
    pos: int,
    j: int,
)
    requires
        0 <= j <= pos < before.len(),
        after.len() == before.len(),
        forall|q: int| 0 <= q < before.len() && q != pos ==> after[q] == before[q],
        after[pos].node_id == before[pos].node_id,
        forall|q: int|
            0 <= q < pos && #[trigger] blocked(nodes, before, q) ==> before[q].has_missing_inputs,
        crate::graph::has_node(nodes, before[pos].node_id) && cut_off(
            before,
            nodes[crate::graph::node_index(nodes, before[pos].node_id)],
        ) ==> after[pos].has_missing_inputs,
        blocked(nodes, after, j),
    ensures
        after[j].has_missing_inputs,
{
    assert(same_ids(before, after));
    let node = nodes[crate::graph::node_index(nodes, after[j].node_id)];
    let i = choose|i: int| 0 <= i < node.inputs@.len() && input_blocked(after, j, #[trigger] node.inputs@[i]);
    let id = node.inputs@[i].binding->0.output_node_id;
    lemma_same_ids(before, after, id);
    let e = entry_index(after, id);
    crate::runtime_graph::lemma_entry_index_exists(after, id);
    assert(0 <= e < j);
    assert(after[e] == before[e]);
    if j < pos {
        assert(after[j] == before[j]);
        assert(input_blocked(before, j, node.inputs@[i]));
        assert(blocked(nodes, before, j));
    } else {
        assert(input_cut_off(before, node.inputs@[i]));
        assert(cut_off(before, node));
    }
}

} // verus!
