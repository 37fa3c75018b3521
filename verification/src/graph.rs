use crate::data_type::DataType;
use crate::ident::Id;
use vstd::prelude::*;

verus! {

/// Whether a node asks to run on every cycle or lets its cached output stand.
#[derive(Clone, Copy, PartialEq, Eq, Debug, Structural)]
pub enum NodeBehavior {
    Active,
    Passive,
}

impl Default for NodeBehavior {
    fn default() -> (behavior: NodeBehavior)
        ensures
            behavior == NodeBehavior::Active,
    {
        NodeBehavior::Active
    }
}

/// Whether a binding wants a fresh value on every cycle or is content with
/// what its producer last emitted.
#[derive(Clone, Copy, PartialEq, Eq, Debug, Structural)]
pub enum BindingBehavior {
    Always,
    Once,
}

impl Default for BindingBehavior {
    fn default() -> (behavior: BindingBehavior)
        ensures
            behavior == BindingBehavior::Always,
    {
        BindingBehavior::Always
    }
}

/// An output port.
#[derive(Clone, Debug)]
pub struct Output {
    pub name: String,
    pub data_type: DataType,
}

impl Default for Output {
    fn default() -> (output: Output)
        ensures
            output.name@.len() == 0,
            output.data_type == DataType::Null,
    {
        Output { name: String::new(), data_type: DataType::Null }
    }
}

/// A directed reference from an input to one output of another node.
#[derive(Clone, Copy, Debug)]
pub struct Binding {
    pub output_node_id: Id,
    pub output_index: u32,
    pub behavior: BindingBehavior,
}

impl Default for Binding {
    fn default() -> (binding: Binding)
        ensures
            binding.output_node_id.is_nil(),
            binding.output_index == 0,
            binding.behavior == BindingBehavior::Always,
    {
        Binding { output_node_id: Id::nil(), output_index: 0, behavior: BindingBehavior::Always }
    }
}

impl Binding {
    /// A binding to output `output_index` of node `node_id` that asks for a
    /// fresh value on every cycle.
    pub fn new(node_id: Id, output_index: u32) -> (binding: Binding)
        ensures
            binding.output_node_id == node_id,
            binding.output_index == output_index,
            binding.behavior == BindingBehavior::Always,
    {
        Binding { output_node_id: node_id, output_index, behavior: BindingBehavior::Always }
    }

    pub fn output_node_id(&self) -> (id: Id)
        ensures
            id == self.output_node_id,
    {
        self.output_node_id
    }

    pub fn output_index(&self) -> (index: u32)
        ensures
            index == self.output_index,
    {
        self.output_index
    }
}

/// An input port, bound to a producer or left open.
#[derive(Clone, Debug)]
pub struct Input {
    pub name: String,
    pub data_type: DataType,
    pub is_required: bool,
    pub binding: Option<Binding>,
}

impl Default for Input {
    fn default() -> (input: Input)
        ensures
            input.name@.len() == 0,
            input.data_type == DataType::Null,
            !input.is_required,
            input.binding is None,
    {
        Input { name: String::new(), data_type: DataType::Null, is_required: false, binding: None }
    }
}

/// A unit of computation.
#[derive(Clone, Debug)]
pub struct Node {
    pub self_id: Id,
    pub function_id: Id,
    pub name: String,
    pub behavior: NodeBehavior,
    pub is_output: bool,
    pub inputs: Vec<Input>,
    pub outputs: Vec<Output>,
    pub subgraph_id: Option<Id>,
}

impl Node {
    /// An empty active node under a fresh identifier.
    pub fn new() -> (node: Node)
        ensures
            !node.self_id.is_nil(),
            node.function_id.is_nil(),
            node.name@.len() == 0,
            node.behavior == NodeBehavior::Active,
            !node.is_output,
            node.inputs@.len() == 0,
            node.outputs@.len() == 0,
            node.subgraph_id is None,
    {
        Node {
            self_id: Id::new_v4(),
            function_id: Id::nil(),
            name: String::new(),
            behavior: NodeBehavior::Active,
            is_output: false,
            inputs: Vec::new(),
            outputs: Vec::new(),
            subgraph_id: None,
        }
    }

    pub fn id(&self) -> (id: Id)
        ensures
            id == self.self_id,
    {
        self.self_id
    }
}

/// Where an input of a sub-graph enters one of its nodes.
#[derive(Clone, Copy, Debug)]
pub struct SubInputNodeConnection {
    pub subnode_id: Id,
    pub subnode_input_index: u32,
}

impl Default for SubInputNodeConnection {
    fn default() -> (connection: SubInputNodeConnection)
        ensures
            connection.subnode_id.is_nil(),
            connection.subnode_input_index == 0,
    {
        SubInputNodeConnection { subnode_id: Id::nil(), subnode_input_index: 0 }
    }
}

/// An input of a sub-graph.
#[derive(Clone, Debug)]
pub struct SubInput {
    pub name: String,
    pub data_type: DataType,
    pub is_required: bool,
    pub connections: Vec<SubInputNodeConnection>,
}

impl Default for SubInput {
    fn default() -> (input: SubInput)
        ensures
            input.name@.len() == 0,
            input.data_type == DataType::Null,
            !input.is_required,
            input.connections@.len() == 0,
    {
        SubInput {
            name: String::new(),
            data_type: DataType::Null,
            is_required: false,
            connections: Vec::new(),
        }
    }
}

/// An output of a sub-graph: one output of one of its nodes.
#[derive(Clone, Debug)]
pub struct SubOutput {
    pub name: String,
    pub data_type: DataType,
    pub subnode_id: Id,
    pub subnode_output_index: u32,
}

impl Default for SubOutput {
    fn default() -> (output: SubOutput)
        ensures
            output.name@.len() == 0,
            output.data_type == DataType::Null,
            output.subnode_id.is_nil(),
            output.subnode_output_index == 0,
    {
        SubOutput {
            name: String::new(),
            data_type: DataType::Null,
            subnode_id: Id::nil(),
            subnode_output_index: 0,
        }
    }
}

/// A named group of nodes with ports of its own.
#[derive(Clone, Debug)]
pub struct SubGraph {
    pub self_id: Id,
    pub name: String,
    pub inputs: Vec<SubInput>,
    pub outputs: Vec<SubOutput>,
}

impl SubGraph {
    /// An empty sub-graph under a fresh identifier.
    pub fn new() -> (subgraph: SubGraph)
        ensures
            !subgraph.self_id.is_nil(),
            subgraph.name@.len() == 0,
            subgraph.inputs@.len() == 0,
            subgraph.outputs@.len() == 0,
    {
        SubGraph {
            self_id: Id::new_v4(),
            name: String::new(),
            inputs: Vec::new(),
            outputs: Vec::new(),
        }
    }

    pub fn id(&self) -> (id: Id)
        ensures
            id == self.self_id,
    {
        self.self_id
    }
}

/// Whether `i` is the first position of `nodes` that carries `id`.
pub open spec fn node_at(nodes: Seq<Node>, id: Id, i: int) -> bool {
    &&& 0 <= i < nodes.len()
    &&& nodes[i].self_id == id
    &&& forall|j: int| 0 <= j < i ==> nodes[j].self_id != id
}

/// Whether some node of `nodes` carries `id`.
pub open spec fn has_node(nodes: Seq<Node>, id: Id) -> bool {
    exists|i: int| 0 <= i < nodes.len() && nodes[i].self_id == id
}

/// The first position of `nodes` that carries `id`; meaningful where
/// `has_node` holds.
pub open spec fn node_index(nodes: Seq<Node>, id: Id) -> int {
    choose|i: int| node_at(nodes, id, i)
}

/// Whether `i` is the first position of `subgraphs` that carries `id`.
pub open spec fn subgraph_at(subgraphs: Seq<SubGraph>, id: Id, i: int) -> bool {
    &&& 0 <= i < subgraphs.len()
    &&& subgraphs[i].self_id == id
    &&& forall|j: int| 0 <= j < i ==> subgraphs[j].self_id != id
}

/// Whether some sub-graph of `subgraphs` carries `id`.
pub open spec fn has_subgraph(subgraphs: Seq<SubGraph>, id: Id) -> bool {
    exists|i: int| 0 <= i < subgraphs.len() && subgraphs[i].self_id == id
}

/// The first position of `subgraphs` that carries `id`; meaningful where
/// `has_subgraph` holds.
pub open spec fn subgraph_index(subgraphs: Seq<SubGraph>, id: Id) -> int {
    choose|i: int| subgraph_at(subgraphs, id, i)
}

/// A position that `subgraph_at` accepts is the one that `subgraph_index`
/// names.
pub proof fn lemma_subgraph_index(subgraphs: Seq<SubGraph>, id: Id, i: int)
    requires
        subgraph_at(subgraphs, id, i),
    ensures
        subgraph_index(subgraphs, id) == i,
        has_subgraph(subgraphs, id),
{
    let k = subgraph_index(subgraphs, id);
    assert(subgraph_at(subgraphs, id, k));
    if k < i {
        assert(subgraphs[k].self_id != id);
    } else if i < k {
        assert(subgraphs[i].self_id != id);
    }
}

/// A position that `node_at` accepts is the one that `node_index` names.
pub proof fn lemma_node_index(nodes: Seq<Node>, id: Id, i: int)
    requires
        node_at(nodes, id, i),
    ensures
        node_index(nodes, id) == i,
        has_node(nodes, id),
{
    let k = node_index(nodes, id);
    assert(node_at(nodes, id, k));
    if k < i {
        assert(nodes[k].self_id != id);
    } else if i < k {
        assert(nodes[i].self_id != id);
    }
}

/// Where some node carries `id`, `node_index` names the first that does.
pub proof fn lemma_node_index_exists(nodes: Seq<Node>, id: Id)
    requires
        has_node(nodes, id),
    ensures
        node_at(nodes, id, node_index(nodes, id)),
{
    let w = choose|i: int| 0 <= i < nodes.len() && nodes[i].self_id == id;
    lemma_first_before(nodes, id, w);
}

proof fn lemma_first_before(nodes: Seq<Node>, id: Id, w: int)
    requires
        0 <= w < nodes.len(),
        nodes[w].self_id == id,
    ensures
        exists|i: int| node_at(nodes, id, i),
    decreases w,
{
    if exists|j: int| 0 <= j < w && nodes[j].self_id == id {
        let j = choose|j: int| 0 <= j < w && nodes[j].self_id == id;
        lemma_first_before(nodes, id, j);
    } else {
        assert(node_at(nodes, id, w));
    }
}

/// Finds the first node that carries `id`.
pub fn find_node(nodes: &Vec<Node>, id: Id) -> (found: Option<usize>)
    ensures
        match found {
            Some(i) => node_at(nodes@, id, i as int) && node_index(nodes@, id) == i,
            None => !has_node(nodes@, id),
        },
{
    let mut i: usize = 0;
    while i < nodes.len()
        invariant
            i <= nodes.len(),
            forall|j: int| 0 <= j < i ==> nodes@[j].self_id != id,
        decreases nodes.len() - i,
    {
        if nodes[i].self_id == id {
            proof {
                lemma_node_index(nodes@, id, i as int);
            }
            return Some(i);
        }
        i += 1;
    }
    None
}

/// Finds the first sub-graph that carries `id`.
pub fn find_subgraph(subgraphs: &Vec<SubGraph>, id: Id) -> (found: Option<usize>)
    ensures
        match found {
            Some(i) => subgraph_at(subgraphs@, id, i as int) && subgraph_index(subgraphs@, id) == i,
            None => !has_subgraph(subgraphs@, id),
        },
{
    let mut i: usize = 0;
    while i < subgraphs.len()
        invariant
            i <= subgraphs.len(),
            forall|j: int| 0 <= j < i ==> subgraphs@[j].self_id != id,
        decreases subgraphs.len() - i,
    {
        if subgraphs[i].self_id == id {
            proof {
                lemma_subgraph_index(subgraphs@, id, i as int);
            }
            return Some(i);
        }
        i += 1;
    }
    None
}

/// Whether `i` is the first position of `nodes` whose node is called `name`.
pub open spec fn named_at(nodes: Seq<Node>, name: Seq<char>, i: int) -> bool {
    &&& 0 <= i < nodes.len()
    &&& nodes[i].name@ == name
    &&& forall|j: int| 0 <= j < i ==> nodes[j].name@ != name
}

/// The first position of `nodes` whose node is called `name`; meaningful
/// where some node is.
pub open spec fn named_index(nodes: Seq<Node>, name: Seq<char>) -> int {
    choose|i: int| named_at(nodes, name, i)
}

/// Whether some node of `nodes` is called `name`.
pub open spec fn has_named(nodes: Seq<Node>, name: Seq<char>) -> bool {
    exists|i: int| 0 <= i < nodes.len() && nodes[i].name@ == name
}

/// A position that `named_at` accepts is the one that `named_index` names.
pub proof fn lemma_named_index(nodes: Seq<Node>, name: Seq<char>, i: int)
    requires
        named_at(nodes, name, i),
    ensures
        named_index(nodes, name) == i,
        has_named(nodes, name),
{
    let k = named_index(nodes, name);
    assert(named_at(nodes, name, k));
    if k < i {
        assert(nodes[k].name@ != name);
    } else if i < k {
        assert(nodes[i].name@ != name);
    }
}

/// Finds the first node called `name`.
pub fn find_node_named(nodes: &Vec<Node>, name: &str) -> (found: Option<usize>)
    ensures
        match found {
            Some(i) => named_at(nodes@, name@, i as int) && named_index(nodes@, name@) == i,
            None => !has_named(nodes@, name@),
        },
{
    let wanted = name.to_owned();
    let mut i: usize = 0;
    while i < nodes.len()
        invariant
            i <= nodes.len(),
            wanted@ == name@,
            forall|j: int| 0 <= j < i ==> nodes@[j].name@ != name@,
        decreases nodes.len() - i,
    {
        if nodes[i].name == wanted {
            proof {
                lemma_named_index(nodes@, name@, i as int);
            }
            return Some(i);
        }
        i += 1;
    }
    None
}

/// Whether `node` belongs to the sub-graph `subgraph_id`.
pub open spec fn in_subgraph(node: Node, subgraph_id: Id) -> bool {
    node.subgraph_id == Some(subgraph_id)
}

/// The nodes of `nodes` that belong to the sub-graph `subgraph_id`, in order.
pub open spec fn members_of(nodes: Seq<Node>, subgraph_id: Id) -> Seq<Node>
    decreases nodes.len(),
{
    if nodes.len() == 0 {
        nodes
    } else if in_subgraph(nodes.last(), subgraph_id) {
        members_of(nodes.drop_last(), subgraph_id).push(nodes.last())
    } else {
        members_of(nodes.drop_last(), subgraph_id)
    }
}

/// The identifiers of the nodes of `nodes` that belong to the sub-graph
/// `subgraph_id`, in order.
pub open spec fn member_ids(nodes: Seq<Node>, subgraph_id: Id) -> Seq<Id>
    decreases nodes.len(),
{
    if nodes.len() == 0 {
        Seq::empty()
    } else if in_subgraph(nodes.last(), subgraph_id) {
        member_ids(nodes.drop_last(), subgraph_id).push(nodes.last().self_id)
    } else {
        member_ids(nodes.drop_last(), subgraph_id)
    }
}

/// The nodes of `nodes` whose identifier is not among `gone`, in order.
pub open spec fn without_ids(nodes: Seq<Node>, gone: Seq<Id>) -> Seq<Node>
    decreases nodes.len(),
{
    if nodes.len() == 0 {
        nodes
    } else if gone.contains(nodes.last().self_id) {
        without_ids(nodes.drop_last(), gone)
    } else {
        without_ids(nodes.drop_last(), gone).push(nodes.last())
    }
}

/// The sub-graphs of `subgraphs` that do not carry `id`, in order.
pub open spec fn without_subgraph(subgraphs: Seq<SubGraph>, id: Id) -> Seq<SubGraph>
    decreases subgraphs.len(),
{
    if subgraphs.len() == 0 {
        subgraphs
    } else if subgraphs.last().self_id == id {
        without_subgraph(subgraphs.drop_last(), id)
    } else {
        without_subgraph(subgraphs.drop_last(), id).push(subgraphs.last())
    }
}

/// Whether `after` is `before` with its binding taken away if, and only if,
/// that binding named one of `gone`.
pub open spec fn input_released(before: Input, after: Input, gone: Seq<Id>) -> bool {
    &&& after.name == before.name
    &&& after.data_type == before.data_type
    &&& after.is_required == before.is_required
    &&& after.binding == match before.binding {
        Some(binding) => if gone.contains(binding.output_node_id) {
            None
        } else {
            Some(binding)
        },
        None => None,
    }
}

/// Whether `after` is `before` with every binding to one of `gone` taken
/// away and nothing else changed.
pub open spec fn node_released(before: Node, after: Node, gone: Seq<Id>) -> bool {
    &&& after.self_id == before.self_id
    &&& after.function_id == before.function_id
    &&& after.name == before.name
    &&& after.behavior == before.behavior
    &&& after.is_output == before.is_output
    &&& after.outputs == before.outputs
    &&& after.subgraph_id == before.subgraph_id
    &&& after.inputs@.len() == before.inputs@.len()
    &&& forall|i: int|
        0 <= i < before.inputs@.len() ==> input_released(
            #[trigger] before.inputs@[i],
            after.inputs@[i],
            gone,
        )
}

/// Whether `after` holds the nodes of `before` but those that carry one of
/// `gone`, in their order, with every binding to one of `gone` taken away.
pub open spec fn nodes_dropped(before: Seq<Node>, after: Seq<Node>, gone: Seq<Id>) -> bool {
    &&& after.len() == without_ids(before, gone).len()
    &&& forall|k: int|
        0 <= k < after.len() ==> node_released(
            #[trigger] without_ids(before, gone)[k],
            after[k],
            gone,
        )
}

fn holds_id(ids: &Vec<Id>, id: Id) -> (held: bool)
    ensures
        held == ids@.contains(id),
{
    let mut i: usize = 0;
    while i < ids.len()
        invariant
            i <= ids.len(),
            forall|j: int| 0 <= j < i ==> ids@[j] != id,
        decreases ids.len() - i,
    {
        if ids[i] == id {
            return true;
        }
        i += 1;
    }
    false
}

fn is_member(node: &Node, subgraph_id: Id) -> (member: bool)
    ensures
        member == in_subgraph(*node, subgraph_id),
{
    match node.subgraph_id {
        Some(id) => id == subgraph_id,
        None => false,
    }
}

/// Takes away every binding of `node` that names one of `gone`.
fn release_bindings(node: &mut Node, gone: &Vec<Id>)
    ensures
        node_released(*old(node), *final(node), gone@),
{
    let mut i: usize = 0;
    while i < node.inputs.len()
        invariant
            i <= node.inputs@.len(),
            node.self_id == old(node).self_id,
            node.function_id == old(node).function_id,
            node.name == old(node).name,
            node.behavior == old(node).behavior,
            node.is_output == old(node).is_output,
            node.outputs == old(node).outputs,
            node.subgraph_id == old(node).subgraph_id,
            node.inputs@.len() == old(node).inputs@.len(),
            forall|j: int|
                0 <= j < i ==> input_released(#[trigger] old(node).inputs@[j], node.inputs@[j], gone@),
            forall|j: int| i <= j < node.inputs@.len() ==> node.inputs@[j] == old(node).inputs@[j],
        decreases node.inputs@.len() - i,
    {
        let named = match node.inputs[i].binding {
            Some(binding) => holds_id(gone, binding.output_node_id),
            None => false,
        };
        if named {
            node.inputs[i].binding = None;
        }
        i += 1;
    }
}

/// Removes the nodes that carry one of `gone`, and every binding to them.
fn drop_nodes(nodes: &mut Vec<Node>, gone: &Vec<Id>)
    ensures
        nodes_dropped(old(nodes)@, final(nodes)@, gone@),
{
    let ghost before = nodes@;
    let mut i: usize = 0;
    let ghost mut seen: int = 0;
    while i < nodes.len()
        invariant
            0 <= seen <= before.len(),
            i <= nodes@.len(),
            nodes@.len() - i == before.len() - seen,
            nodes@.take(i as int) == without_ids(before.take(seen), gone@),
            nodes@.skip(i as int) == before.skip(seen),
        decreases nodes@.len() - i,
    {
        proof {
            assert(before.take(seen + 1).drop_last() == before.take(seen));
            assert(nodes@[i as int] == nodes@.skip(i as int)[0]);
            assert(before.skip(seen + 1) == before.skip(seen).skip(1));
        }
        if holds_id(gone, nodes[i].self_id) {
            let ghost prior = nodes@;
            nodes.remove(i);
            proof {
                assert(nodes@.take(i as int) == prior.take(i as int));
                assert(nodes@.skip(i as int) == prior.skip(i as int).skip(1));
            }
        } else {
            proof {
                assert(nodes@.take(i + 1) == nodes@.take(i as int).push(nodes@[i as int]));
                assert(nodes@.skip(i + 1) == nodes@.skip(i as int).skip(1));
            }
            i += 1;
        }
        proof {
            seen = seen + 1;
        }
    }
    proof {
        assert(before.take(seen) == before);
        assert(nodes@.take(i as int) == nodes@);
    }
    let ghost kept = nodes@;
    let mut k: usize = 0;
    while k < nodes.len()
        invariant
            k <= nodes@.len(),
            nodes@.len() == kept.len(),
            forall|j: int| 0 <= j < k ==> node_released(#[trigger] kept[j], nodes@[j], gone@),
            forall|j: int| k <= j < nodes@.len() ==> nodes@[j] == kept[j],
        decreases nodes@.len() - k,
    {
        release_bindings(&mut nodes[k], gone);
        k += 1;
    }
}

/// `nodes` with `node` put in: in the place of the first node that carries
/// its identifier, or at the end where none does.
pub open spec fn with_node(nodes: Seq<Node>, node: Node) -> Seq<Node> {
    if has_node(nodes, node.self_id) {
        nodes.update(node_index(nodes, node.self_id), node)
    } else {
        nodes.push(node)
    }
}

/// `subgraphs` with `subgraph` put in: in the place of the first sub-graph
/// that carries its identifier, or at the end where none does.
pub open spec fn with_subgraph(subgraphs: Seq<SubGraph>, subgraph: SubGraph) -> Seq<SubGraph> {
    if has_subgraph(subgraphs, subgraph.self_id) {
        subgraphs.update(subgraph_index(subgraphs, subgraph.self_id), subgraph)
    } else {
        subgraphs.push(subgraph)
    }
}

/// What a graph holds: its nodes and its sub-graphs, each in order.
pub ghost struct GraphView {
    pub nodes: Seq<Node>,
    pub subgraphs: Seq<SubGraph>,
}

/// An ordered collection of nodes and sub-graphs, found by identifier.
#[derive(Clone, Debug)]
pub struct Graph {
    nodes: Vec<Node>,
    subgraphs: Vec<SubGraph>,
}

impl View for Graph {
    type V = GraphView;

    closed spec fn view(&self) -> GraphView {
        GraphView { nodes: self.nodes@, subgraphs: self.subgraphs@ }
    }
}

impl Default for Graph {
    fn default() -> (graph: Graph)
        ensures
            graph@.nodes.len() == 0,
            graph@.subgraphs.len() == 0,
    {
        Graph { nodes: Vec::new(), subgraphs: Vec::new() }
    }
}

impl Graph {
    /// The empty graph.
    pub fn new() -> (graph: Graph)
        ensures
            graph@.nodes.len() == 0,
            graph@.subgraphs.len() == 0,
    {
        Graph { nodes: Vec::new(), subgraphs: Vec::new() }
    }

    /// The graph that holds `nodes` and `subgraphs` as they come. Nothing is
    /// looked at: whether the graph is valid is for `validate` to say.
    pub fn from_parts(nodes: Vec<Node>, subgraphs: Vec<SubGraph>) -> (graph: Graph)
        ensures
            graph@.nodes == nodes@,
            graph@.subgraphs == subgraphs@,
    {
        Graph { nodes, subgraphs }
    }

    pub fn nodes(&self) -> (nodes: &Vec<Node>)
        ensures
            nodes@ == self@.nodes,
    {
        &self.nodes
    }

    pub fn subgraphs(&self) -> (subgraphs: &Vec<SubGraph>)
        ensures
            subgraphs@ == self@.subgraphs,
    {
        &self.subgraphs
    }

    /// Puts `node` into the graph: in the place of the node that carries its
    /// identifier, or at the end where none does.
    pub fn add_node(&mut self, node: Node)
        ensures
            final(self)@.subgraphs == old(self)@.subgraphs,
            final(self)@.nodes == with_node(old(self)@.nodes, node),
    {
        match find_node(&self.nodes, node.self_id) {
            Some(index) => {
                self.nodes[index] = node;
            },
            None => {
                self.nodes.push(node);
            },
        }
    }

    /// The first node called `name`.
    pub fn node_by_name(&self, name: &str) -> (found: Option<&Node>)
        ensures
            match found {
                Some(node) => has_named(self@.nodes, name@) && *node == self@.nodes[named_index(
                    self@.nodes,
                    name@,
                )],
                None => !has_named(self@.nodes, name@),
            },
    {
        match find_node_named(&self.nodes, name) {
            Some(index) => Some(&self.nodes[index]),
            None => None,
        }
    }

    /// The first node called `name`, to be changed in place.
    pub fn node_by_name_mut(&mut self, name: &str) -> (found: Option<&mut Node>)
        ensures
            final(self)@.subgraphs == old(self)@.subgraphs,
            match found {
                Some(node) => has_named(old(self)@.nodes, name@) && *node == old(self)@.nodes[named_index(old(self)@.nodes, name@)] && final(self)@.nodes == old(self)@.nodes.update(named_index(old(self)@.nodes, name@), *final(node)),
                None => !has_named(old(self)@.nodes, name@) && final(self)@.nodes == old(self)@.nodes,
            },
    {
        match find_node_named(&self.nodes, name) {
            Some(index) => Some(&mut self.nodes[index]),
            None => None,
        }
    }

    /// The node that carries `id`.
    pub fn node_by_id(&self, id: Id) -> (found: Option<&Node>)
        ensures
            match found {
                Some(node) => has_node(self@.nodes, id) && *node == self@.nodes[node_index(
                    self@.nodes,
                    id,
                )],
                None => !has_node(self@.nodes, id),
            },
    {
        match find_node(&self.nodes, id) {
            Some(index) => Some(&self.nodes[index]),
            None => None,
        }
    }

    /// The node that carries `id`, to be changed in place.
    pub fn node_by_id_mut(&mut self, id: Id) -> (found: Option<&mut Node>)
        ensures
            final(self)@.subgraphs == old(self)@.subgraphs,
            match found {
                Some(node) => has_node(old(self)@.nodes, id) && *node == old(self)@.nodes[node_index(
                    old(self)@.nodes,
                    id,
                )] && final(self)@.nodes == old(self)@.nodes.update(
                    node_index(old(self)@.nodes, id),
                    *final(node),
                ),
                None => !has_node(old(self)@.nodes, id) && final(self)@.nodes == old(self)@.nodes,
            },
    {
        match find_node(&self.nodes, id) {
            Some(index) => Some(&mut self.nodes[index]),
            None => None,
        }
    }
    /// Removes the node that carries `id`, and with it every binding to it.
    pub fn remove_node_by_id(&mut self, id: Id)
        ensures
            final(self)@.subgraphs == old(self)@.subgraphs,
            nodes_dropped(old(self)@.nodes, final(self)@.nodes, seq![id]),
    {
        let mut gone: Vec<Id> = Vec::new();
        gone.push(id);
        assert(gone@ == seq![id]);
        drop_nodes(&mut self.nodes, &gone);
    }

    /// The nodes that belong to the sub-graph `subgraph_id`, in order.
    pub fn nodes_by_subgraph_id(&self, subgraph_id: Id) -> (found: Vec<&Node>)
        ensures
            found@.len() == members_of(self@.nodes, subgraph_id).len(),
            forall|k: int|
                0 <= k < found@.len() ==> *found@[k] == members_of(self@.nodes, subgraph_id)[k],
    {
        let mut found: Vec<&Node> = Vec::new();
        let mut i: usize = 0;
        while i < self.nodes.len()
            invariant
                i <= self.nodes@.len(),
                found@.len() == members_of(self.nodes@.take(i as int), subgraph_id).len(),
                forall|k: int|
                    0 <= k < found@.len() ==> *found@[k] == members_of(
                        self.nodes@.take(i as int),
                        subgraph_id,
                    )[k],
            decreases self.nodes@.len() - i,
        {
            proof {
                assert(self.nodes@.take(i + 1).drop_last() == self.nodes@.take(i as int));
            }
            if is_member(&self.nodes[i], subgraph_id) {
                found.push(&self.nodes[i]);
            }
            i += 1;
        }
        proof {
            assert(self.nodes@.take(i as int) == self.nodes@);
        }
        found
    }

    /// Puts `subgraph` into the graph: in the place of the sub-graph that
    /// carries its identifier, or at the end where none does.
    pub fn add_subgraph(&mut self, subgraph: SubGraph)
        ensures
            final(self)@.nodes == old(self)@.nodes,
            final(self)@.subgraphs == with_subgraph(old(self)@.subgraphs, subgraph),
    {
        match find_subgraph(&self.subgraphs, subgraph.self_id) {
            Some(index) => {
                self.subgraphs[index] = subgraph;
            },
            None => {
                self.subgraphs.push(subgraph);
            },
        }
    }

    /// Removes the sub-graph that carries `id`, the nodes that belong to it,
    /// and every binding to one of those nodes.
    pub fn remove_subgraph_by_id(&mut self, id: Id)
        ensures
            final(self)@.subgraphs == without_subgraph(old(self)@.subgraphs, id),
            nodes_dropped(
                old(self)@.nodes,
                final(self)@.nodes,
                member_ids(old(self)@.nodes, id),
            ),
    {
        let mut i: usize = 0;
        let ghost before = self.subgraphs@;
        let ghost mut seen: int = 0;
        while i < self.subgraphs.len()
            invariant
                0 <= seen <= before.len(),
                i <= self.subgraphs@.len(),
                self.nodes == old(self).nodes,
                self.subgraphs@.len() - i == before.len() - seen,
                self.subgraphs@.take(i as int) == without_subgraph(before.take(seen), id),
                self.subgraphs@.skip(i as int) == before.skip(seen),
            decreases self.subgraphs@.len() - i,
        {
            proof {
                assert(before.take(seen + 1).drop_last() == before.take(seen));
                assert(self.subgraphs@[i as int] == self.subgraphs@.skip(i as int)[0]);
                assert(before.skip(seen + 1) == before.skip(seen).skip(1));
            }
            if self.subgraphs[i].self_id == id {
                let ghost prior = self.subgraphs@;
                self.subgraphs.remove(i);
                proof {
                    assert(self.subgraphs@.take(i as int) == prior.take(i as int));
                    assert(self.subgraphs@.skip(i as int) == prior.skip(i as int).skip(1));
                }
            } else {
                proof {
                    assert(self.subgraphs@.take(i + 1) == self.subgraphs@.take(i as int).push(
                        self.subgraphs@[i as int],
                    ));
                    assert(self.subgraphs@.skip(i + 1) == self.subgraphs@.skip(i as int).skip(1));
                }
                i += 1;
            }
            proof {
                seen = seen + 1;
            }
        }
        proof {
            assert(before.take(seen) == before);
            assert(self.subgraphs@.take(i as int) == self.subgraphs@);
        }
        let mut gone: Vec<Id> = Vec::new();
        let mut k: usize = 0;
        while k < self.nodes.len()
            invariant
                k <= self.nodes@.len(),
                self.nodes == old(self).nodes,
                self.subgraphs@ == without_subgraph(old(self).subgraphs@, id),
                gone@ == member_ids(self.nodes@.take(k as int), id),
            decreases self.nodes@.len() - k,
        {
            proof {
                assert(self.nodes@.take(k + 1).drop_last() == self.nodes@.take(k as int));
            }
            if is_member(&self.nodes[k], id) {
                gone.push(self.nodes[k].self_id);
            }
            k += 1;
        }
        proof {
            assert(self.nodes@.take(k as int) == self.nodes@);
        }
        drop_nodes(&mut self.nodes, &gone);
    }

    /// The sub-graph that carries `id`.
    pub fn subgraph_by_id(&self, id: Id) -> (found: Option<&SubGraph>)
        ensures
            match found {
                Some(subgraph) => has_subgraph(self@.subgraphs, id) && *subgraph
                    == self@.subgraphs[subgraph_index(self@.subgraphs, id)],
                None => !has_subgraph(self@.subgraphs, id),
            },
    {
        match find_subgraph(&self.subgraphs, id) {
            Some(index) => Some(&self.subgraphs[index]),
            None => None,
        }
    }

    /// The sub-graph that carries `id`, to be changed in place.
    pub fn subgraph_by_id_mut(&mut self, id: Id) -> (found: Option<&mut SubGraph>)
        ensures
            final(self)@.nodes == old(self)@.nodes,
            match found {
                Some(subgraph) => has_subgraph(old(self)@.subgraphs, id) && *subgraph == old(self)@.subgraphs[subgraph_index(old(self)@.subgraphs, id)] && final(self)@.subgraphs
                    == old(self)@.subgraphs.update(
                    subgraph_index(old(self)@.subgraphs, id),
                    *final(subgraph),
                ),
                None => !has_subgraph(old(self)@.subgraphs, id) && final(self)@.subgraphs == old(self)@.subgraphs,
            },
    {
        match find_subgraph(&self.subgraphs, id) {
            Some(index) => Some(&mut self.subgraphs[index]),
            None => None,
        }
    }
}

} // verus!
