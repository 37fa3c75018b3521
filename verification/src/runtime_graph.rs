use crate::graph::BindingBehavior;
use crate::graph::NodeBehavior;
use crate::ident::Id;
use crate::invoke::InvokeContext;
use crate::invoke::InvokeError;
use crate::invoke::Value;
use vstd::prelude::*;

verus! {

/// What one cycle decided and knows about one node of the graph.
#[derive(Clone, Debug)]
pub struct RuntimeNode {
    /// The node of the graph that this entry stands for.
    pub node_id: Id,
    pub name: String,
    pub behavior: NodeBehavior,
    pub is_output: bool,
    /// Whether the node has to run in this cycle.
    pub should_execute: bool,
    /// Whether the node holds output values, or will once this cycle has run.
    pub has_outputs: bool,
    /// Whether the node, or a node that it consumes, lacks a required input.
    pub has_missing_inputs: bool,
    /// `Always` where a path of bindings that all ask for a value every cycle
    /// leads from a sink to the node.
    pub edge_behavior: BindingBehavior,
    /// How many bindings of planned nodes name the node.
    pub total_binding_count: u32,
    /// The output values that the node last produced.
    pub output_values: Vec<Value>,
    /// The error with which the function of the node failed in this cycle,
    /// as the function gave it.
    pub failure: Option<InvokeError>,
}

/// Where a planned node stands within its cycle.
#[derive(Clone, Copy, PartialEq, Eq, Debug, Structural)]
pub enum NodeState {
    /// The node, or a node that it consumes, lacks a required input.
    Missing,
    /// The node need not run: what it has cached will do.
    Skippable,
    /// The node has to run.
    MustExecute,
}

impl RuntimeNode {
    pub fn node_id(&self) -> (id: Id)
        ensures
            id == self.node_id,
    {
        self.node_id
    }

    pub open spec fn state_spec(&self) -> NodeState {
        if self.has_missing_inputs {
            NodeState::Missing
        } else if self.should_execute {
            NodeState::MustExecute
        } else {
            NodeState::Skippable
        }
    }

    /// Where the node stands: missing inputs come first, then the decision
    /// to run.
    #[verifier::when_used_as_spec(state_spec)]
    pub fn state(&self) -> (state: NodeState)
        ensures
            state == self.state_spec(),
    {
        if self.has_missing_inputs {
            NodeState::Missing
        } else if self.should_execute {
            NodeState::MustExecute
        } else {
            NodeState::Skippable
        }
    }
}

/// Whether `i` is the first position of `nodes` that stands for `id`.
pub open spec fn entry_at(nodes: Seq<RuntimeNode>, id: Id, i: int) -> bool {
    &&& 0 <= i < nodes.len()
    &&& nodes[i].node_id == id
    &&& forall|j: int| 0 <= j < i ==> nodes[j].node_id != id
}

/// Whether some entry of `nodes` stands for `id`.
pub open spec fn has_entry(nodes: Seq<RuntimeNode>, id: Id) -> bool {
    exists|i: int| 0 <= i < nodes.len() && nodes[i].node_id == id
}

/// The first position of `nodes` that stands for `id`; meaningful where
/// `has_entry` holds.
pub open spec fn entry_index(nodes: Seq<RuntimeNode>, id: Id) -> int {
    choose|i: int| entry_at(nodes, id, i)
}

/// A position that `entry_at` accepts is the one that `entry_index` names.
pub proof fn lemma_entry_index(nodes: Seq<RuntimeNode>, id: Id, i: int)
    requires
        entry_at(nodes, id, i),
    ensures
        entry_index(nodes, id) == i,
        has_entry(nodes, id),
{
    let k = entry_index(nodes, id);
    assert(entry_at(nodes, id, k));
    if k < i {
        assert(nodes[k].node_id != id);
    } else if i < k {
        assert(nodes[i].node_id != id);
    }
}

/// Where some entry stands for `id`, `entry_index` names the first that does.
pub proof fn lemma_entry_index_exists(nodes: Seq<RuntimeNode>, id: Id)
    requires
        has_entry(nodes, id),
    ensures
        entry_at(nodes, id, entry_index(nodes, id)),
{
    let w = choose|i: int| 0 <= i < nodes.len() && nodes[i].node_id == id;
    lemma_first_entry(nodes, id, w);
}

proof fn lemma_first_entry(nodes: Seq<RuntimeNode>, id: Id, w: int)
    requires
        0 <= w < nodes.len(),
        nodes[w].node_id == id,
    ensures
        exists|i: int| entry_at(nodes, id, i),
    decreases w,
{
    if exists|j: int| 0 <= j < w && nodes[j].node_id == id {
        let j = choose|j: int| 0 <= j < w && nodes[j].node_id == id;
        lemma_first_entry(nodes, id, j);
    } else {
        assert(entry_at(nodes, id, w));
    }
}

/// Finds the first entry that stands for `id`.
pub fn find_entry(nodes: &Vec<RuntimeNode>, id: Id) -> (found: Option<usize>)
    ensures
        match found {
            Some(i) => entry_at(nodes@, id, i as int) && entry_index(nodes@, id) == i,
            None => !has_entry(nodes@, id),
        },
{
    let mut i: usize = 0;
    while i < nodes.len()
        invariant
            i <= nodes.len(),
            forall|j: int| 0 <= j < i ==> nodes@[j].node_id != id,
        decreases nodes.len() - i,
    {
        if nodes[i].node_id == id {
            proof {
                lemma_entry_index(nodes@, id, i as int);
            }
            return Some(i);
        }
        i += 1;
    }
    None
}

/// Whether `i` is the first position of `nodes` whose entry is called `name`.
pub open spec fn entry_named_at(nodes: Seq<RuntimeNode>, name: Seq<char>, i: int) -> bool {
    &&& 0 <= i < nodes.len()
    &&& nodes[i].name@ == name
    &&& forall|j: int| 0 <= j < i ==> nodes[j].name@ != name
}

/// Whether some entry of `nodes` is called `name`.
pub open spec fn has_entry_named(nodes: Seq<RuntimeNode>, name: Seq<char>) -> bool {
    exists|i: int| 0 <= i < nodes.len() && nodes[i].name@ == name
}

/// The first position of `nodes` whose entry is called `name`; meaningful
/// where some entry is.
pub open spec fn entry_named_index(nodes: Seq<RuntimeNode>, name: Seq<char>) -> int {
    choose|i: int| entry_named_at(nodes, name, i)
}

proof fn lemma_entry_named_index(nodes: Seq<RuntimeNode>, name: Seq<char>, i: int)
    requires
        entry_named_at(nodes, name, i),
    ensures
        entry_named_index(nodes, name) == i,
        has_entry_named(nodes, name),
{
    let k = entry_named_index(nodes, name);
    assert(entry_named_at(nodes, name, k));
    if k < i {
        assert(nodes[k].name@ != name);
    } else if i < k {
        assert(nodes[i].name@ != name);
    }
}

/// The scratch values of one node of the graph.
#[derive(Clone, Debug)]
pub struct NodeContext {
    pub node_id: Id,
    pub context: InvokeContext,
}

/// Whether `i` is the first position of `contexts` that belongs to `id`.
pub open spec fn context_at(contexts: Seq<NodeContext>, id: Id, i: int) -> bool {
    &&& 0 <= i < contexts.len()
    &&& contexts[i].node_id == id
    &&& forall|j: int| 0 <= j < i ==> contexts[j].node_id != id
}

/// Whether some context of `contexts` belongs to `id`.
pub open spec fn has_context(contexts: Seq<NodeContext>, id: Id) -> bool {
    exists|i: int| 0 <= i < contexts.len() && contexts[i].node_id == id
}

/// Finds the first context that belongs to `id`.
pub fn find_context(contexts: &Vec<NodeContext>, id: Id) -> (found: Option<usize>)
    ensures
        match found {
            Some(i) => context_at(contexts@, id, i as int),
            None => !has_context(contexts@, id),
        },
{
    let mut i: usize = 0;
    while i < contexts.len()
        invariant
            i <= contexts.len(),
            forall|j: int| 0 <= j < i ==> contexts@[j].node_id != id,
        decreases contexts.len() - i,
    {
        if contexts[i].node_id == id {
            return Some(i);
        }
        i += 1;
    }
    None
}

/// The plan of one cycle: the nodes that a sink needs, producers first, each
/// with what was decided about it and with what it has cached. With the plan
/// go the scratch values of the nodes of the graph, which outlive the cycle.
#[derive(Clone, Debug)]
pub struct RuntimeGraph {
    pub nodes: Vec<RuntimeNode>,
    /// The scratch values of the nodes that have run, each under the
    /// identifier of its node.
    pub contexts: Vec<NodeContext>,
}

impl View for RuntimeGraph {
    type V = Seq<RuntimeNode>;

    open spec fn view(&self) -> Seq<RuntimeNode> {
        self.nodes@
    }
}

impl Default for RuntimeGraph {
    fn default() -> (graph: RuntimeGraph)
        ensures
            graph@.len() == 0,
            graph.contexts@.len() == 0,
    {
        RuntimeGraph { nodes: Vec::new(), contexts: Vec::new() }
    }
}

impl RuntimeGraph {
    /// The plan of no cycle: what the first cycle starts from.
    pub fn new() -> (graph: RuntimeGraph)
        ensures
            graph@.len() == 0,
            graph.contexts@.len() == 0,
    {
        RuntimeGraph { nodes: Vec::new(), contexts: Vec::new() }
    }

    /// The entry that stands for the node `id`.
    pub fn node_by_id(&self, id: Id) -> (found: Option<&RuntimeNode>)
        ensures
            match found {
                Some(node) => has_entry(self@, id) && *node == self@[entry_index(self@, id)],
                None => !has_entry(self@, id),
            },
    {
        match find_entry(&self.nodes, id) {
            Some(index) => Some(&self.nodes[index]),
            None => None,
        }
    }

    /// The first entry called `name`.
    pub fn node_by_name(&self, name: &str) -> (found: Option<&RuntimeNode>)
        ensures
            match found {
                Some(node) => has_entry_named(self@, name@) && *node == self@[entry_named_index(
                    self@,
                    name@,
                )],
                None => !has_entry_named(self@, name@),
            },
    {
        let wanted = name.to_owned();
        let mut i: usize = 0;
        while i < self.nodes.len()
            invariant
                i <= self.nodes@.len(),
                wanted@ == name@,
                forall|j: int| 0 <= j < i ==> self.nodes@[j].name@ != name@,
            decreases self.nodes@.len() - i,
        {
            if self.nodes[i].name == wanted {
                proof {
                    lemma_entry_named_index(self.nodes@, name@, i as int);
                }
                return Some(&self.nodes[i]);
            }
            i += 1;
        }
        None
    }
}

} // verus!
