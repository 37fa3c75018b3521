use crate::data_type::DataType;
use crate::graph::find_node;
use crate::graph::find_subgraph;
use crate::graph::has_node;
use crate::graph::has_subgraph;
use crate::graph::node_index;
use crate::graph::Graph;
use crate::graph::GraphView;
use crate::graph::Input;
use crate::graph::Node;
use crate::graph::SubGraph;
use crate::graph::SubInput;
use crate::graph::SubInputNodeConnection;
use crate::graph::SubOutput;
use crate::topology::acyclic;
use crate::topology::arrange;
use crate::topology::edge;
use crate::topology::lemma_arranged_is_acyclic;
use crate::topology::lemma_edge_in_range;
use crate::topology::listed;
use vstd::prelude::*;

verus! {

/// What makes a graph invalid.
#[derive(Clone, Copy, PartialEq, Eq, Debug, Structural)]
pub enum ValidationError {
    /// A node carries the nil identifier.
    NilNodeId,
    /// Two nodes carry one identifier.
    DuplicateNodeId,
    /// A node belongs to a sub-graph that the graph does not hold.
    UnknownSubgraph,
    /// An input is bound to a node that the graph does not hold.
    BindingToUnknownNode,
    /// An input is bound to an output that its producer does not have.
    BindingToUnknownOutput,
    /// An input is bound to an output of a type that it does not take.
    BindingTypeMismatch,
    /// Two sub-graphs carry one identifier.
    DuplicateSubgraphId,
    /// An input of a sub-graph leads to a node that the graph does not hold.
    SubInputToUnknownNode,
    /// An input of a sub-graph leads to a node outside the sub-graph.
    SubInputToExternalNode,
    /// An input of a sub-graph leads to an input that its node does not have.
    SubInputToUnknownInput,
    /// An input of a sub-graph leads to an input of another type.
    SubInputTypeMismatch,
    /// An output of a sub-graph comes from a node that the graph does not hold.
    SubOutputFromUnknownNode,
    /// An output of a sub-graph comes from a node outside the sub-graph.
    SubOutputFromExternalNode,
    /// An output of a sub-graph comes from an output that its node does not have.
    SubOutputFromUnknownOutput,
    /// An output of a sub-graph comes from an output of another type.
    SubOutputTypeMismatch,
    /// The bindings form a cycle.
    Cycle,
}

impl ValidationError {
    /// The reason in words.
    pub fn message(&self) -> (text: &'static str)
        ensures
            text@ == self.message_spec(),
    {
        match self {
            ValidationError::NilNodeId => "Node has invalid id",
            ValidationError::DuplicateNodeId => "Node id is used by another node",
            ValidationError::UnknownSubgraph => "Node has invalid subgraph id",
            ValidationError::BindingToUnknownNode => "Node input connected to a non-existent node",
            ValidationError::BindingToUnknownOutput => "Node input connected to a non-existent output",
            ValidationError::BindingTypeMismatch =>
                "Node input connected to an output with an incompatible data type",
            ValidationError::DuplicateSubgraphId => "Subgraph id is used by another subgraph",
            ValidationError::SubInputToUnknownNode => "Subgraph input connected to a non-existent node",
            ValidationError::SubInputToExternalNode => "Subgraph input connected to an external node",
            ValidationError::SubInputToUnknownInput =>
                "Subgraph input connected to a non-existent input",
            ValidationError::SubInputTypeMismatch =>
                "Subgraph input connected to a node input with an incompatible data type",
            ValidationError::SubOutputFromUnknownNode =>
                "Subgraph output connected to a non-existent node",
            ValidationError::SubOutputFromExternalNode =>
                "Subgraph output connected to an external node",
            ValidationError::SubOutputFromUnknownOutput =>
                "Subgraph output connected to a non-existent output",
            ValidationError::SubOutputTypeMismatch =>
                "Subgraph output connected to a node output with an incompatible data type",
            ValidationError::Cycle => "Node bindings form a cycle",
        }
    }

    pub open spec fn message_spec(&self) -> Seq<char> {
        match self {
            ValidationError::NilNodeId => "Node has invalid id"@,
            ValidationError::DuplicateNodeId => "Node id is used by another node"@,
            ValidationError::UnknownSubgraph => "Node has invalid subgraph id"@,
            ValidationError::BindingToUnknownNode => "Node input connected to a non-existent node"@,
            ValidationError::BindingToUnknownOutput =>
                "Node input connected to a non-existent output"@,
            ValidationError::BindingTypeMismatch =>
                "Node input connected to an output with an incompatible data type"@,
            ValidationError::DuplicateSubgraphId => "Subgraph id is used by another subgraph"@,
            ValidationError::SubInputToUnknownNode =>
                "Subgraph input connected to a non-existent node"@,
            ValidationError::SubInputToExternalNode =>
                "Subgraph input connected to an external node"@,
            ValidationError::SubInputToUnknownInput =>
                "Subgraph input connected to a non-existent input"@,
            ValidationError::SubInputTypeMismatch =>
                "Subgraph input connected to a node input with an incompatible data type"@,
            ValidationError::SubOutputFromUnknownNode =>
                "Subgraph output connected to a non-existent node"@,
            ValidationError::SubOutputFromExternalNode =>
                "Subgraph output connected to an external node"@,
            ValidationError::SubOutputFromUnknownOutput =>
                "Subgraph output connected to a non-existent output"@,
            ValidationError::SubOutputTypeMismatch =>
                "Subgraph output connected to a node output with an incompatible data type"@,
            ValidationError::Cycle => "Node bindings form a cycle"@,
        }
    }
}

/// What is wrong with the binding of `input`, if anything: its producer is
/// not there, lacks the output, or gives a type that the input does not take.
pub open spec fn input_fault(nodes: Seq<Node>, input: Input) -> Option<ValidationError> {
    match input.binding {
        None => None,
        Some(binding) => if !has_node(nodes, binding.output_node_id) {
            Some(ValidationError::BindingToUnknownNode)
        } else {
            let producer = nodes[node_index(nodes, binding.output_node_id)];
            if binding.output_index >= producer.outputs@.len() {
                Some(ValidationError::BindingToUnknownOutput)
            } else if !DataType::assignable(
                input.data_type,
                producer.outputs@[binding.output_index as int].data_type,
            ) {
                Some(ValidationError::BindingTypeMismatch)
            } else {
                None
            }
        },
    }
}

/// The first fault among the first `upto` of `inputs`.
pub open spec fn inputs_fault(nodes: Seq<Node>, inputs: Seq<Input>, upto: int) -> Option<
    ValidationError,
>
    decreases upto,
{
    if upto <= 0 {
        None
    } else {
        match inputs_fault(nodes, inputs, upto - 1) {
            Some(fault) => Some(fault),
            None => input_fault(nodes, inputs[upto - 1]),
        }
    }
}

/// Whether a node before position `k` carries the identifier of the node at
/// `k`.
pub open spec fn repeats_id(nodes: Seq<Node>, k: int) -> bool {
    exists|j: int| 0 <= j < k && (#[trigger] nodes[j]).self_id == nodes[k].self_id
}

/// What is wrong with the node at `k`, if anything: first its identifier,
/// then its sub-graph, then its inputs in order.
pub open spec fn node_fault(g: GraphView, k: int) -> Option<ValidationError> {
    let node = g.nodes[k];
    if node.self_id.is_nil() {
        Some(ValidationError::NilNodeId)
    } else if repeats_id(g.nodes, k) {
        Some(ValidationError::DuplicateNodeId)
    } else if node.subgraph_id is Some && !has_subgraph(g.subgraphs, node.subgraph_id->0) {
        Some(ValidationError::UnknownSubgraph)
    } else {
        inputs_fault(g.nodes, node.inputs@, node.inputs@.len() as int)
    }
}

/// The first fault among the first `upto` nodes.
pub open spec fn nodes_fault(g: GraphView, upto: int) -> Option<ValidationError>
    decreases upto,
{
    if upto <= 0 {
        None
    } else {
        match nodes_fault(g, upto - 1) {
            Some(fault) => Some(fault),
            None => node_fault(g, upto - 1),
        }
    }
}

/// What is wrong with one connection of an input of `subgraph`, if anything.
pub open spec fn connection_fault(
    nodes: Seq<Node>,
    subgraph: SubGraph,
    data_type: DataType,
    connection: SubInputNodeConnection,
) -> Option<ValidationError> {
    if !has_node(nodes, connection.subnode_id) {
        Some(ValidationError::SubInputToUnknownNode)
    } else {
        let node = nodes[node_index(nodes, connection.subnode_id)];
        if node.subgraph_id != Some(subgraph.self_id) {
            Some(ValidationError::SubInputToExternalNode)
        } else if connection.subnode_input_index >= node.inputs@.len() {
            Some(ValidationError::SubInputToUnknownInput)
        } else if !DataType::assignable(
            data_type,
            node.inputs@[connection.subnode_input_index as int].data_type,
        ) {
            Some(ValidationError::SubInputTypeMismatch)
        } else {
            None
        }
    }
}

/// The first fault among the first `upto` connections of `input`.
pub open spec fn connections_fault(
    nodes: Seq<Node>,
    subgraph: SubGraph,
    input: SubInput,
    upto: int,
) -> Option<ValidationError>
    decreases upto,
{
    if upto <= 0 {
        None
    } else {
        match connections_fault(nodes, subgraph, input, upto - 1) {
            Some(fault) => Some(fault),
            None => connection_fault(nodes, subgraph, input.data_type, input.connections@[upto - 1]),
        }
    }
}

/// The first fault among the first `upto` inputs of `subgraph`.
pub open spec fn sub_inputs_fault(nodes: Seq<Node>, subgraph: SubGraph, upto: int) -> Option<
    ValidationError,
>
    decreases upto,
{
    if upto <= 0 {
        None
    } else {
        match sub_inputs_fault(nodes, subgraph, upto - 1) {
            Some(fault) => Some(fault),
            None => connections_fault(
                nodes,
                subgraph,
                subgraph.inputs@[upto - 1],
                subgraph.inputs@[upto - 1].connections@.len() as int,
            ),
        }
    }
}

/// What is wrong with one output of `subgraph`, if anything.
pub open spec fn sub_output_fault(nodes: Seq<Node>, subgraph: SubGraph, output: SubOutput) -> Option<
    ValidationError,
> {
    if !has_node(nodes, output.subnode_id) {
        Some(ValidationError::SubOutputFromUnknownNode)
    } else {
        let node = nodes[node_index(nodes, output.subnode_id)];
        if node.subgraph_id != Some(subgraph.self_id) {
            Some(ValidationError::SubOutputFromExternalNode)
        } else if output.subnode_output_index >= node.outputs@.len() {
            Some(ValidationError::SubOutputFromUnknownOutput)
        } else if !DataType::assignable(
            output.data_type,
            node.outputs@[output.subnode_output_index as int].data_type,
        ) {
            Some(ValidationError::SubOutputTypeMismatch)
        } else {
            None
        }
    }
}

/// The first fault among the first `upto` outputs of `subgraph`.
pub open spec fn sub_outputs_fault(nodes: Seq<Node>, subgraph: SubGraph, upto: int) -> Option<
    ValidationError,
>
    decreases upto,
{
    if upto <= 0 {
        None
    } else {
        match sub_outputs_fault(nodes, subgraph, upto - 1) {
            Some(fault) => Some(fault),
            None => sub_output_fault(nodes, subgraph, subgraph.outputs@[upto - 1]),
        }
    }
}

/// Whether a sub-graph before position `s` carries the identifier of the
/// sub-graph at `s`.
pub open spec fn repeats_subgraph_id(subgraphs: Seq<SubGraph>, s: int) -> bool {
    exists|j: int| 0 <= j < s && (#[trigger] subgraphs[j]).self_id == subgraphs[s].self_id
}

/// What is wrong with the sub-graph at `s`, if anything: first its
/// identifier, then its ports.
pub open spec fn subgraph_fault_at(g: GraphView, s: int) -> Option<ValidationError> {
    if repeats_subgraph_id(g.subgraphs, s) {
        Some(ValidationError::DuplicateSubgraphId)
    } else {
        subgraph_fault(g.nodes, g.subgraphs[s])
    }
}

/// What is wrong with the ports of `subgraph`, if anything: first its
/// inputs, then its outputs, each in order.
pub open spec fn subgraph_fault(nodes: Seq<Node>, subgraph: SubGraph) -> Option<ValidationError> {
    match sub_inputs_fault(nodes, subgraph, subgraph.inputs@.len() as int) {
        Some(fault) => Some(fault),
        None => sub_outputs_fault(nodes, subgraph, subgraph.outputs@.len() as int),
    }
}

/// The first fault among the first `upto` sub-graphs.
pub open spec fn subgraphs_fault(g: GraphView, upto: int) -> Option<ValidationError>
    decreases upto,
{
    if upto <= 0 {
        None
    } else {
        match subgraphs_fault(g, upto - 1) {
            Some(fault) => Some(fault),
            None => subgraph_fault_at(g, upto - 1),
        }
    }
}

/// The first fault of a graph, if it has one: the nodes are looked at in
/// order, then the sub-graphs, and cycles last.
pub open spec fn first_fault(g: GraphView) -> Option<ValidationError> {
    match nodes_fault(g, g.nodes.len() as int) {
        Some(fault) => Some(fault),
        None => match subgraphs_fault(g, g.subgraphs.len() as int) {
            Some(fault) => Some(fault),
            None => if acyclic(g.nodes) {
                None
            } else {
                Some(ValidationError::Cycle)
            },
        },
    }
}

/// Whether the binding of `input`, if it has one, names an output that the
/// graph holds and whose type the input takes.
pub open spec fn input_sound(nodes: Seq<Node>, input: Input) -> bool {
    input.binding is Some ==> {
        let binding = input.binding->0;
        &&& has_node(nodes, binding.output_node_id)
        &&& binding.output_index < nodes[node_index(nodes, binding.output_node_id)].outputs@.len()
        &&& DataType::assignable(
            input.data_type,
            nodes[node_index(
                nodes,
                binding.output_node_id,
            )].outputs@[binding.output_index as int].data_type,
        )
    }
}

/// Whether the node at `k` carries an identifier of its own that is not nil,
/// belongs to no sub-graph or to one that the graph holds, and has sound
/// inputs.
pub open spec fn node_sound(g: GraphView, k: int) -> bool {
    &&& !g.nodes[k].self_id.is_nil()
    &&& !repeats_id(g.nodes, k)
    &&& g.nodes[k].subgraph_id is Some ==> has_subgraph(g.subgraphs, g.nodes[k].subgraph_id->0)
    &&& forall|i: int|
        0 <= i < g.nodes[k].inputs@.len() ==> input_sound(g.nodes, #[trigger] g.nodes[k].inputs@[i])
}

/// Whether every port of `subgraph` leads to a port of one of its own nodes,
/// of a type that goes with its own.
pub open spec fn subgraph_sound(nodes: Seq<Node>, subgraph: SubGraph) -> bool {
    &&& forall|i: int, c: int|
        0 <= i < subgraph.inputs@.len() && 0 <= c < subgraph.inputs@[i].connections@.len()
            ==> connection_fault(
            nodes,
            subgraph,
            subgraph.inputs@[i].data_type,
            #[trigger] subgraph.inputs@[i].connections@[c],
        ) is None
    &&& forall|o: int|
        0 <= o < subgraph.outputs@.len() ==> sub_output_fault(
            nodes,
            subgraph,
            #[trigger] subgraph.outputs@[o],
        ) is None
}

/// Whether the sub-graph at `s` carries an identifier of its own and has
/// sound ports.
pub open spec fn subgraph_sound_at(g: GraphView, s: int) -> bool {
    &&& !repeats_subgraph_id(g.subgraphs, s)
    &&& subgraph_sound(g.nodes, g.subgraphs[s])
}

/// Whether a graph is valid: every node and every sub-graph is sound, and
/// the bindings form no cycle.
pub open spec fn valid(g: GraphView) -> bool {
    &&& forall|k: int| 0 <= k < g.nodes.len() ==> #[trigger] node_sound(g, k)
    &&& forall|s: int| 0 <= s < g.subgraphs.len() ==> #[trigger] subgraph_sound_at(g, s)
    &&& acyclic(g.nodes)
}

proof fn lemma_inputs_fault(nodes: Seq<Node>, inputs: Seq<Input>, upto: int)
    requires
        0 <= upto <= inputs.len(),
    ensures
        inputs_fault(nodes, inputs, upto) is None <==> forall|i: int|
            0 <= i < upto ==> input_sound(nodes, #[trigger] inputs[i]),
    decreases upto,
{
    if upto > 0 {
        lemma_inputs_fault(nodes, inputs, upto - 1);
        if inputs_fault(nodes, inputs, upto) is None {
            assert(input_sound(nodes, inputs[upto - 1]));
        } else if inputs_fault(nodes, inputs, upto - 1) is None {
            assert(!input_sound(nodes, inputs[upto - 1]));
        }
    }
}

proof fn lemma_nodes_fault(g: GraphView, upto: int)
    requires
        0 <= upto <= g.nodes.len(),
    ensures
        nodes_fault(g, upto) is None <==> forall|k: int| 0 <= k < upto ==> #[trigger] node_sound(g, k),
    decreases upto,
{
    if upto > 0 {
        lemma_nodes_fault(g, upto - 1);
        let node = g.nodes[upto - 1];
        lemma_inputs_fault(g.nodes, node.inputs@, node.inputs@.len() as int);
        if nodes_fault(g, upto) is None {
            assert(node_sound(g, upto - 1));
        } else if nodes_fault(g, upto - 1) is None {
            assert(!node_sound(g, upto - 1));
        }
    }
}

proof fn lemma_connections_fault(nodes: Seq<Node>, subgraph: SubGraph, input: SubInput, upto: int)
    requires
        0 <= upto <= input.connections@.len(),
    ensures
        connections_fault(nodes, subgraph, input, upto) is None <==> forall|c: int|
            0 <= c < upto ==> connection_fault(
                nodes,
                subgraph,
                input.data_type,
                #[trigger] input.connections@[c],
            ) is None,
    decreases upto,
{
    if upto > 0 {
        lemma_connections_fault(nodes, subgraph, input, upto - 1);
        if connections_fault(nodes, subgraph, input, upto) is None {
        } else if connections_fault(nodes, subgraph, input, upto - 1) is None {
            assert(connection_fault(nodes, subgraph, input.data_type, input.connections@[upto - 1])
                is Some);
        }
    }
}

proof fn lemma_sub_inputs_fault(nodes: Seq<Node>, subgraph: SubGraph, upto: int)
    requires
        0 <= upto <= subgraph.inputs@.len(),
    ensures
        sub_inputs_fault(nodes, subgraph, upto) is None <==> forall|i: int, c: int|
            0 <= i < upto && 0 <= c < subgraph.inputs@[i].connections@.len() ==> connection_fault(
                nodes,
                subgraph,
                subgraph.inputs@[i].data_type,
                #[trigger] subgraph.inputs@[i].connections@[c],
            ) is None,
    decreases upto,
{
    if upto > 0 {
        lemma_sub_inputs_fault(nodes, subgraph, upto - 1);
        let input = subgraph.inputs@[upto - 1];
        lemma_connections_fault(nodes, subgraph, input, input.connections@.len() as int);
        if sub_inputs_fault(nodes, subgraph, upto) is None {
        } else if sub_inputs_fault(nodes, subgraph, upto - 1) is None {
            let c = choose|c: int|
                0 <= c < input.connections@.len() && !(connection_fault(
                    nodes,
                    subgraph,
                    input.data_type,
                    #[trigger] input.connections@[c],
                ) is None);
            assert(connection_fault(
                nodes,
                subgraph,
                subgraph.inputs@[upto - 1].data_type,
                subgraph.inputs@[upto - 1].connections@[c],
            ) is Some);
        }
    }
}

proof fn lemma_sub_outputs_fault(nodes: Seq<Node>, subgraph: SubGraph, upto: int)
    requires
        0 <= upto <= subgraph.outputs@.len(),
    ensures
        sub_outputs_fault(nodes, subgraph, upto) is None <==> forall|o: int|
            0 <= o < upto ==> sub_output_fault(nodes, subgraph, #[trigger] subgraph.outputs@[o])
                is None,
    decreases upto,
{
    if upto > 0 {
        lemma_sub_outputs_fault(nodes, subgraph, upto - 1);
        if sub_outputs_fault(nodes, subgraph, upto) is None {
        } else if sub_outputs_fault(nodes, subgraph, upto - 1) is None {
            assert(sub_output_fault(nodes, subgraph, subgraph.outputs@[upto - 1]) is Some);
        }
    }
}

proof fn lemma_subgraphs_fault(g: GraphView, upto: int)
    requires
        0 <= upto <= g.subgraphs.len(),
    ensures
        subgraphs_fault(g, upto) is None <==> forall|s: int|
            0 <= s < upto ==> #[trigger] subgraph_sound_at(g, s),
    decreases upto,
{
    if upto > 0 {
        lemma_subgraphs_fault(g, upto - 1);
        let subgraph = g.subgraphs[upto - 1];
        lemma_sub_inputs_fault(g.nodes, subgraph, subgraph.inputs@.len() as int);
        lemma_sub_outputs_fault(g.nodes, subgraph, subgraph.outputs@.len() as int);
        if subgraphs_fault(g, upto) is None {
            assert(subgraph_sound_at(g, upto - 1));
        } else if subgraphs_fault(g, upto - 1) is None {
            assert(!subgraph_sound_at(g, upto - 1));
        }
    }
}

/// A graph is valid exactly when it has no fault.
pub proof fn lemma_valid_iff_faultless(g: GraphView)
    ensures
        valid(g) <==> first_fault(g) is None,
{
    lemma_nodes_fault(g, g.nodes.len() as int);
    lemma_subgraphs_fault(g, g.subgraphs.len() as int);
}

fn check_input(nodes: &Vec<Node>, input: &Input) -> (fault: Option<ValidationError>)
    ensures
        fault == input_fault(nodes@, *input),
{
    match input.binding {
        None => None,
        Some(binding) => match find_node(nodes, binding.output_node_id) {
            None => Some(ValidationError::BindingToUnknownNode),
            Some(p) => {
                let producer = &nodes[p];
                if binding.output_index as usize >= producer.outputs.len() {
                    Some(ValidationError::BindingToUnknownOutput)
                } else if !DataType::can_assign(
                    &input.data_type,
                    &producer.outputs[binding.output_index as usize].data_type,
                ) {
                    Some(ValidationError::BindingTypeMismatch)
                } else {
                    None
                }
            },
        },
    }
}

fn check_node(graph: &Graph, k: usize) -> (fault: Option<ValidationError>)
    requires
        k < graph@.nodes.len(),
    ensures
        fault == node_fault(graph@, k as int),
{
    let nodes = graph.nodes();
    let node = &nodes[k];
    if node.self_id.is_nil() {
        return Some(ValidationError::NilNodeId);
    }
    match find_node(nodes, node.self_id) {
        Some(first) => {
            if first != k {
                assert(nodes@[first as int].self_id == nodes@[k as int].self_id);
                return Some(ValidationError::DuplicateNodeId);
            }
        },
        None => {},
    }
    assert(!repeats_id(nodes@, k as int));
    match node.subgraph_id {
        Some(subgraph_id) => {
            if find_subgraph(graph.subgraphs(), subgraph_id).is_none() {
                return Some(ValidationError::UnknownSubgraph);
            }
        },
        None => {},
    }
    let mut i: usize = 0;
    while i < node.inputs.len()
        invariant
            i <= node.inputs@.len(),
            k < nodes@.len(),
            nodes@ == graph@.nodes,
            *node == nodes@[k as int],
            !node.self_id.is_nil(),
            !repeats_id(nodes@, k as int),
            node.subgraph_id is Some ==> has_subgraph(graph@.subgraphs, node.subgraph_id->0),
            inputs_fault(nodes@, node.inputs@, i as int) is None,
        decreases node.inputs@.len() - i,
    {
        match check_input(nodes, &node.inputs[i]) {
            Some(fault) => {
                proof {
                    assert(inputs_fault(nodes@, node.inputs@, i + 1) == Some(fault));
                    lemma_inputs_fault_found(nodes@, node.inputs@, i + 1, node.inputs@.len() as int);
                }
                return Some(fault);
            },
            None => {},
        }
        i += 1;
    }
    None
}

/// A fault that is the first among some inputs is the first among more.
proof fn lemma_inputs_fault_found(nodes: Seq<Node>, inputs: Seq<Input>, upto: int, more: int)
    requires
        0 <= upto <= more,
        inputs_fault(nodes, inputs, upto) is Some,
    ensures
        inputs_fault(nodes, inputs, more) == inputs_fault(nodes, inputs, upto),
    decreases more - upto,
{
    if upto < more {
        lemma_inputs_fault_found(nodes, inputs, upto, more - 1);
    }
}

proof fn lemma_nodes_fault_found(g: GraphView, upto: int, more: int)
    requires
        0 <= upto <= more,
        nodes_fault(g, upto) is Some,
    ensures
        nodes_fault(g, more) == nodes_fault(g, upto),
    decreases more - upto,
{
    if upto < more {
        lemma_nodes_fault_found(g, upto, more - 1);
    }
}

proof fn lemma_connections_fault_found(
    nodes: Seq<Node>,
    subgraph: SubGraph,
    input: SubInput,
    upto: int,
    more: int,
)
    requires
        0 <= upto <= more,
        connections_fault(nodes, subgraph, input, upto) is Some,
    ensures
        connections_fault(nodes, subgraph, input, more) == connections_fault(
            nodes,
            subgraph,
            input,
            upto,
        ),
    decreases more - upto,
{
    if upto < more {
        lemma_connections_fault_found(nodes, subgraph, input, upto, more - 1);
    }
}

proof fn lemma_sub_inputs_fault_found(nodes: Seq<Node>, subgraph: SubGraph, upto: int, more: int)
    requires
        0 <= upto <= more,
        sub_inputs_fault(nodes, subgraph, upto) is Some,
    ensures
        sub_inputs_fault(nodes, subgraph, more) == sub_inputs_fault(nodes, subgraph, upto),
    decreases more - upto,
{
    if upto < more {
        lemma_sub_inputs_fault_found(nodes, subgraph, upto, more - 1);
    }
}

proof fn lemma_sub_outputs_fault_found(nodes: Seq<Node>, subgraph: SubGraph, upto: int, more: int)
    requires
        0 <= upto <= more,
        sub_outputs_fault(nodes, subgraph, upto) is Some,
    ensures
        sub_outputs_fault(nodes, subgraph, more) == sub_outputs_fault(nodes, subgraph, upto),
    decreases more - upto,
{
    if upto < more {
        lemma_sub_outputs_fault_found(nodes, subgraph, upto, more - 1);
    }
}

proof fn lemma_subgraphs_fault_found(g: GraphView, upto: int, more: int)
    requires
        0 <= upto <= more,
        subgraphs_fault(g, upto) is Some,
    ensures
        subgraphs_fault(g, more) == subgraphs_fault(g, upto),
    decreases more - upto,
{
    if upto < more {
        lemma_subgraphs_fault_found(g, upto, more - 1);
    }
}

fn is_internal(node: &Node, subgraph: &SubGraph) -> (internal: bool)
    ensures
        internal == (node.subgraph_id == Some(subgraph.self_id)),
{
    match node.subgraph_id {
        Some(id) => id == subgraph.self_id,
        None => false,
    }
}

fn check_connection(
    nodes: &Vec<Node>,
    subgraph: &SubGraph,
    data_type: &DataType,
    connection: &SubInputNodeConnection,
) -> (fault: Option<ValidationError>)
    ensures
        fault == connection_fault(nodes@, *subgraph, *data_type, *connection),
{
    match find_node(nodes, connection.subnode_id) {
        None => Some(ValidationError::SubInputToUnknownNode),
        Some(at) => {
            let node = &nodes[at];
            if !is_internal(node, subgraph) {
                Some(ValidationError::SubInputToExternalNode)
            } else if connection.subnode_input_index as usize >= node.inputs.len() {
                Some(ValidationError::SubInputToUnknownInput)
            } else if !DataType::can_assign(
                data_type,
                &node.inputs[connection.subnode_input_index as usize].data_type,
            ) {
                Some(ValidationError::SubInputTypeMismatch)
            } else {
                None
            }
        },
    }
}

fn check_sub_output(nodes: &Vec<Node>, subgraph: &SubGraph, output: &SubOutput) -> (fault: Option<
    ValidationError,
>)
    ensures
        fault == sub_output_fault(nodes@, *subgraph, *output),
{
    match find_node(nodes, output.subnode_id) {
        None => Some(ValidationError::SubOutputFromUnknownNode),
        Some(at) => {
            let node = &nodes[at];
            if !is_internal(node, subgraph) {
                Some(ValidationError::SubOutputFromExternalNode)
            } else if output.subnode_output_index as usize >= node.outputs.len() {
                Some(ValidationError::SubOutputFromUnknownOutput)
            } else if !DataType::can_assign(
                &output.data_type,
                &node.outputs[output.subnode_output_index as usize].data_type,
            ) {
                Some(ValidationError::SubOutputTypeMismatch)
            } else {
                None
            }
        },
    }
}

fn check_subgraph_at(graph: &Graph, s: usize) -> (fault: Option<ValidationError>)
    requires
        s < graph@.subgraphs.len(),
    ensures
        fault == subgraph_fault_at(graph@, s as int),
{
    let subgraphs = graph.subgraphs();
    match find_subgraph(subgraphs, subgraphs[s].self_id) {
        Some(first) => {
            if first != s {
                assert(subgraphs@[first as int].self_id == subgraphs@[s as int].self_id);
                return Some(ValidationError::DuplicateSubgraphId);
            }
        },
        None => {},
    }
    assert(!repeats_subgraph_id(subgraphs@, s as int));
    check_subgraph(graph.nodes(), &subgraphs[s])
}

fn check_subgraph(nodes: &Vec<Node>, subgraph: &SubGraph) -> (fault: Option<ValidationError>)
    ensures
        fault == subgraph_fault(nodes@, *subgraph),
{
    let mut i: usize = 0;
    while i < subgraph.inputs.len()
        invariant
            i <= subgraph.inputs@.len(),
            sub_inputs_fault(nodes@, *subgraph, i as int) is None,
        decreases subgraph.inputs@.len() - i,
    {
        let input = &subgraph.inputs[i];
        let mut c: usize = 0;
        while c < input.connections.len()
            invariant
                c <= input.connections@.len(),
                i < subgraph.inputs@.len(),
                *input == subgraph.inputs@[i as int],
                sub_inputs_fault(nodes@, *subgraph, i as int) is None,
                connections_fault(nodes@, *subgraph, *input, c as int) is None,
            decreases input.connections@.len() - c,
        {
            match check_connection(nodes, subgraph, &input.data_type, &input.connections[c]) {
                Some(fault) => {
                    proof {
                        assert(connections_fault(nodes@, *subgraph, *input, c + 1) == Some(fault));
                        lemma_connections_fault_found(
                            nodes@,
                            *subgraph,
                            *input,
                            c + 1,
                            input.connections@.len() as int,
                        );
                        assert(sub_inputs_fault(nodes@, *subgraph, i + 1) == Some(fault));
                        lemma_sub_inputs_fault_found(
                            nodes@,
                            *subgraph,
                            i + 1,
                            subgraph.inputs@.len() as int,
                        );
                    }
                    return Some(fault);
                },
                None => {},
            }
            c += 1;
        }
        i += 1;
    }
    let mut o: usize = 0;
    while o < subgraph.outputs.len()
        invariant
            o <= subgraph.outputs@.len(),
            sub_inputs_fault(nodes@, *subgraph, subgraph.inputs@.len() as int) is None,
            sub_outputs_fault(nodes@, *subgraph, o as int) is None,
        decreases subgraph.outputs@.len() - o,
    {
        match check_sub_output(nodes, subgraph, &subgraph.outputs[o]) {
            Some(fault) => {
                proof {
                    assert(sub_outputs_fault(nodes@, *subgraph, o + 1) == Some(fault));
                    lemma_sub_outputs_fault_found(
                        nodes@,
                        *subgraph,
                        o + 1,
                        subgraph.outputs@.len() as int,
                    );
                }
                return Some(fault);
            },
            None => {},
        }
        o += 1;
    }
    None
}

impl Graph {
    /// Looks for the first fault of the graph: the nodes in order, then the
    /// sub-graphs in order, then cycles among the bindings. Nothing is
    /// changed, so a second call gives the same answer.
    pub fn validate(&self) -> (checked: Result<(), ValidationError>)
        ensures
            checked == match first_fault(self@) {
                Some(fault) => Err::<(), ValidationError>(fault),
                None => Ok::<(), ValidationError>(()),
            },
            checked is Ok <==> valid(self@),
    {
        proof {
            lemma_valid_iff_faultless(self@);
        }
        let nodes = self.nodes();
        let subgraphs = self.subgraphs();
        let mut k: usize = 0;
        while k < nodes.len()
            invariant
                k <= nodes@.len(),
                nodes@ == self@.nodes,
                valid(self@) <==> first_fault(self@) is None,
                nodes_fault(self@, k as int) is None,
            decreases nodes@.len() - k,
        {
            match check_node(self, k) {
                Some(fault) => {
                    proof {
                        assert(nodes_fault(self@, k + 1) == Some(fault));
                        lemma_nodes_fault_found(self@, k + 1, nodes@.len() as int);
                    }
                    return Err(fault);
                },
                None => {},
            }
            k += 1;
        }
        let mut s: usize = 0;
        while s < subgraphs.len()
            invariant
                s <= subgraphs@.len(),
                nodes@ == self@.nodes,
                subgraphs@ == self@.subgraphs,
                valid(self@) <==> first_fault(self@) is None,
                nodes_fault(self@, nodes@.len() as int) is None,
                subgraphs_fault(self@, s as int) is None,
            decreases subgraphs@.len() - s,
        {
            match check_subgraph_at(self, s) {
                Some(fault) => {
                    proof {
                        assert(subgraphs_fault(self@, s + 1) == Some(fault));
                        lemma_subgraphs_fault_found(self@, s + 1, subgraphs@.len() as int);
                    }
                    return Err(fault);
                },
                None => {},
            }
            s += 1;
        }
        let mut members: Vec<usize> = Vec::new();
        let mut m: usize = 0;
        while m < nodes.len()
            invariant
                m <= nodes@.len(),
                members@.len() == m,
                forall|q: int| 0 <= q < m ==> #[trigger] members@[q] == q,
            decreases nodes@.len() - m,
        {
            members.push(m);
            m += 1;
        }
        proof {
            assert forall|c: int, p: int| listed(members@, c) && #[trigger] edge(nodes@, false, c, p)
                implies listed(members@, p) by {
                lemma_edge_in_range(nodes@, false, c, p);
                assert(members@[p] == p);
            }
        }
        match arrange(nodes, &members) {
            Some(order) => {
                proof {
                    assert forall|q: int| 0 <= q < nodes@.len() implies listed(order@, q) by {
                        assert(members@[q] == q);
                        assert(listed(members@, q));
                    }
                    lemma_arranged_is_acyclic(nodes@, order@);
                }
                Ok(())
            },
            None => Err(ValidationError::Cycle),
        }
    }
}

} // verus!
