use crate::graph::BindingBehavior;
use crate::graph::Binding;
use crate::graph::Graph;
use crate::graph::GraphView;
use crate::graph::Input;
use crate::graph::Node;
use crate::graph::NodeBehavior;
use crate::graph::Output;
use crate::ident::Id;
use crate::script::FuncConnections;
use crate::script::FunctionInfo;
use crate::validate::first_fault;
use crate::validate::valid;
use crate::validate::ValidationError;
use std::collections::HashMap;
use vstd::prelude::*;

verus! {

/// Why no graph comes of what a script connected.
#[derive(Clone, Copy, PartialEq, Eq, Debug, Structural)]
pub enum ScriptError {
    /// A call names a function that the script did not declare.
    UnknownFunction,
    /// A call has more inputs than its function declares.
    TooManyInputs,
    /// A call has more outputs than its function declares, or than 32 bits
    /// can number.
    TooManyOutputs,
    /// An input names an output that no call hands out.
    UnknownOutput,
    /// Two nodes drew the same identifier.
    IdClash,
    /// The graph that the calls make is not valid.
    Invalid(ValidationError),
}

/// Whether `f` is the first position of `functions` whose function is called
/// `name`.
pub open spec fn function_at(functions: Seq<FunctionInfo>, name: Seq<char>, f: int) -> bool {
    &&& 0 <= f < functions.len()
    &&& functions[f].name@ == name
    &&& forall|j: int| 0 <= j < f ==> functions[j].name@ != name
}

/// Whether some function of `functions` is called `name`.
pub open spec fn has_function(functions: Seq<FunctionInfo>, name: Seq<char>) -> bool {
    exists|f: int| 0 <= f < functions.len() && functions[f].name@ == name
}

/// The first position of `functions` whose function is called `name`;
/// meaningful where `has_function` holds.
pub open spec fn function_index(functions: Seq<FunctionInfo>, name: Seq<char>) -> int {
    choose|f: int| function_at(functions, name, f)
}

proof fn lemma_function_index(functions: Seq<FunctionInfo>, name: Seq<char>, f: int)
    requires
        function_at(functions, name, f),
    ensures
        function_index(functions, name) == f,
        has_function(functions, name),
{
    let k = function_index(functions, name);
    assert(function_at(functions, name, k));
    if k < f {
        assert(functions[k].name@ != name);
    } else if f < k {
        assert(functions[f].name@ != name);
    }
}

fn find_function(functions: &Vec<FunctionInfo>, name: &str) -> (found: Option<usize>)
    ensures
        match found {
            Some(f) => function_at(functions@, name@, f as int) && function_index(functions@, name@)
                == f,
            None => !has_function(functions@, name@),
        },
{
    let wanted = name.to_owned();
    let mut f: usize = 0;
    while f < functions.len()
        invariant
            f <= functions@.len(),
            wanted@ == name@,
            forall|j: int| 0 <= j < f ==> functions@[j].name@ != name@,
        decreases functions@.len() - f,
    {
        if functions[f].name == wanted {
            proof {
                lemma_function_index(functions@, name@, f as int);
            }
            return Some(f);
        }
        f += 1;
    }
    None
}

/// What is wrong with one call, if anything: its function is not declared,
/// or declares fewer ports than the call uses.
pub open spec fn connection_fault(functions: Seq<FunctionInfo>, call: FuncConnections) -> Option<
    ScriptError,
> {
    if !has_function(functions, call.name@) {
        Some(ScriptError::UnknownFunction)
    } else {
        let function = functions[function_index(functions, call.name@)];
        if call.inputs@.len() > function.inputs@.len() {
            Some(ScriptError::TooManyInputs)
        } else if call.outputs@.len() > function.outputs@.len() || call.outputs@.len() > u32::MAX {
            Some(ScriptError::TooManyOutputs)
        } else {
            None
        }
    }
}

/// The first fault among the first `upto` calls.
pub open spec fn connections_fault(
    functions: Seq<FunctionInfo>,
    calls: Seq<FuncConnections>,
    upto: int,
) -> Option<ScriptError>
    decreases upto,
{
    if upto <= 0 {
        None
    } else {
        match connections_fault(functions, calls, upto - 1) {
            Some(fault) => Some(fault),
            None => connection_fault(functions, calls[upto - 1]),
        }
    }
}

/// Whether output `o` of call `m` carries the number `x`.
pub open spec fn makes(calls: Seq<FuncConnections>, x: u32, m: int, o: int) -> bool {
    &&& 0 <= m < calls.len()
    &&& 0 <= o < calls[m].outputs@.len()
    &&& calls[m].outputs@[o] == x
}

/// Whether some output of some call carries the number `x`.
pub open spec fn is_made(calls: Seq<FuncConnections>, x: u32) -> bool {
    exists|m: int, o: int| makes(calls, x, m, o)
}

/// Whether output `o` of call `m` is the last to carry the number `x`: the
/// one that an input that names `x` is bound to.
pub open spec fn made_last(calls: Seq<FuncConnections>, x: u32, m: int, o: int) -> bool {
    &&& makes(calls, x, m, o)
    &&& forall|m2: int, o2: int| #[trigger] makes(calls, x, m2, o2) ==> m2 < m || (m2 == m && o2 <= o)
}

/// Whether every input of call `k` names an output that some call hands out.
pub open spec fn all_made(calls: Seq<FuncConnections>, k: int) -> bool {
    forall|i: int| 0 <= i < calls[k].inputs@.len() ==> is_made(calls, #[trigger] calls[k].inputs@[i])
}

/// What is wrong with the calls of a script, if anything: first the fault of
/// the first call that has one, then an input that names no output.
pub open spec fn script_fault(functions: Seq<FunctionInfo>, calls: Seq<FuncConnections>) -> Option<
    ScriptError,
> {
    match connections_fault(functions, calls, calls.len() as int) {
        Some(fault) => Some(fault),
        None => if forall|k: int| 0 <= k < calls.len() ==> #[trigger] all_made(calls, k) {
            None
        } else {
            Some(ScriptError::UnknownOutput)
        },
    }
}

/// Whether `input` is input `i` of the node of call `k`: a required input,
/// named and typed as the function declares it, and bound, asking for a
/// value every cycle, to the output that last carries the number it names.
pub open spec fn input_built(
    functions: Seq<FunctionInfo>,
    calls: Seq<FuncConnections>,
    ids: Seq<Id>,
    k: int,
    i: int,
    input: Input,
) -> bool {
    let declared = functions[function_index(functions, calls[k].name@)].inputs@[i];
    &&& input.name@ == declared.name@
    &&& input.data_type == declared.data_type
    &&& input.is_required
    &&& input.binding is Some
    &&& input.binding->0.behavior == BindingBehavior::Always
    &&& exists|m: int, o: int|
        #[trigger] made_last(calls, calls[k].inputs@[i], m, o) && input.binding->0.output_node_id
            == ids[m] && input.binding->0.output_index == o
}

/// Whether `output` is output `o` of the node of call `k`, named and typed
/// as the function declares it.
pub open spec fn output_built(
    functions: Seq<FunctionInfo>,
    calls: Seq<FuncConnections>,
    k: int,
    o: int,
    output: Output,
) -> bool {
    let declared = functions[function_index(functions, calls[k].name@)].outputs@[o];
    &&& output.name@ == declared.name@
    &&& output.data_type == declared.data_type
}

/// Whether `node` is the node of call `k`: an active node under the
/// identifier `ids[k]`, called as the function is, with one port for every
/// input and every output of the call.
pub open spec fn node_built(
    functions: Seq<FunctionInfo>,
    calls: Seq<FuncConnections>,
    ids: Seq<Id>,
    k: int,
    node: Node,
) -> bool {
    &&& node.self_id == ids[k]
    &&& node.function_id.is_nil()
    &&& node.name@ == functions[function_index(functions, calls[k].name@)].name@
    &&& node.behavior == NodeBehavior::Active
    &&& !node.is_output
    &&& node.subgraph_id is None
    &&& node.inputs@.len() == calls[k].inputs@.len()
    &&& node.outputs@.len() == calls[k].outputs@.len()
    &&& forall|i: int|
        0 <= i < node.inputs@.len() ==> input_built(
            functions,
            calls,
            ids,
            k,
            i,
            #[trigger] node.inputs@[i],
        )
    &&& forall|o: int|
        0 <= o < node.outputs@.len() ==> output_built(
            functions,
            calls,
            k,
            o,
            #[trigger] node.outputs@[o],
        )
}

/// Whether `nodes` holds the node of every call, in the order of the calls.
pub open spec fn graph_built(
    functions: Seq<FunctionInfo>,
    calls: Seq<FuncConnections>,
    ids: Seq<Id>,
    nodes: Seq<Node>,
) -> bool {
    &&& nodes.len() == calls.len()
    &&& forall|k: int|
        0 <= k < nodes.len() ==> node_built(functions, calls, ids, k, #[trigger] nodes[k])
}

fn check_connection(functions: &Vec<FunctionInfo>, call: &FuncConnections) -> (fault: Option<
    ScriptError,
>)
    ensures
        fault == connection_fault(functions@, *call),
{
    match find_function(functions, call.name.as_str()) {
        None => Some(ScriptError::UnknownFunction),
        Some(f) => {
            if call.inputs.len() > functions[f].inputs.len() {
                Some(ScriptError::TooManyInputs)
            } else if call.outputs.len() > functions[f].outputs.len() || call.outputs.len()
                > u32::MAX as usize {
                Some(ScriptError::TooManyOutputs)
            } else {
                None
            }
        },
    }
}

proof fn lemma_connections_fault_found(
    functions: Seq<FunctionInfo>,
    calls: Seq<FuncConnections>,
    upto: int,
    more: int,
)
    requires
        0 <= upto <= more,
        connections_fault(functions, calls, upto) is Some,
    ensures
        connections_fault(functions, calls, more) == connections_fault(functions, calls, upto),
    decreases more - upto,
{
    if upto < more {
        lemma_connections_fault_found(functions, calls, upto, more - 1);
    }
}

proof fn lemma_connections_sound(
    functions: Seq<FunctionInfo>,
    calls: Seq<FuncConnections>,
    upto: int,
    k: int,
)
    requires
        0 <= k < upto,
        connections_fault(functions, calls, upto) is None,
    ensures
        connection_fault(functions, calls[k]) is None,
    decreases upto,
{
    if k < upto - 1 {
        lemma_connections_sound(functions, calls, upto - 1, k);
    }
}

/// Where a number was handed out: the call and the place among its outputs.
#[derive(Clone, Copy, Debug)]
pub struct OutputAddr {
    pub call: usize,
    pub index: usize,
}

/// Whether output `o2` of call `m2` carries the number `x` and comes before
/// output `o` of call `m`.
pub open spec fn made_before(
    calls: Seq<FuncConnections>,
    x: u32,
    m2: int,
    o2: int,
    m: int,
    o: int,
) -> bool {
    &&& makes(calls, x, m2, o2)
    &&& (m2 < m || (m2 == m && o2 < o))
}

/// Whether `registry` knows, of every number that is handed out before
/// output `o` of call `m`, the last place before it where that is done.
pub open spec fn registered_upto(
    calls: Seq<FuncConnections>,
    registry: Map<u32, OutputAddr>,
    m: int,
    o: int,
) -> bool {
    &&& forall|x: u32, m2: int, o2: int| #[trigger]
        made_before(calls, x, m2, o2, m, o) ==> registry.contains_key(x) && (m2 < registry[x].call
            || (m2 == registry[x].call && o2 <= registry[x].index))
    &&& forall|x: u32| #[trigger]
        registry.contains_key(x) ==> made_before(
            calls,
            x,
            registry[x].call as int,
            registry[x].index as int,
            m,
            o,
        )
}

/// Whether `registry` knows of every number that some call hands out, and of
/// no other, the output that last carries it.
pub open spec fn registry_of(calls: Seq<FuncConnections>, registry: Map<u32, OutputAddr>) -> bool {
    forall|x: u32|
        (#[trigger] registry.contains_key(x) <==> is_made(calls, x)) && (registry.contains_key(x)
            ==> made_last(calls, x, registry[x].call as int, registry[x].index as int))
}

/// Notes for every number that a call hands out where that is done; a
/// number that is handed out again is noted anew.
fn register_outputs(calls: &Vec<FuncConnections>) -> (registry: HashMap<u32, OutputAddr>)
    ensures
        registry_of(calls@, registry@),
{
    broadcast use vstd::std_specs::hash::group_hash_axioms;

    let mut registry: HashMap<u32, OutputAddr> = HashMap::new();
    let mut m: usize = 0;
    while m < calls.len()
        invariant
            m <= calls@.len(),
            registered_upto(calls@, registry@, m as int, 0),
        decreases calls@.len() - m,
    {
        let outputs = &calls[m].outputs;
        let mut o: usize = 0;
        while o < outputs.len()
            invariant
                m < calls@.len(),
                *outputs == calls@[m as int].outputs,
                o <= outputs@.len(),
                registered_upto(calls@, registry@, m as int, o as int),
            decreases outputs@.len() - o,
        {
            let ghost held = registry@;
            let x = outputs[o];
            registry.insert(x, OutputAddr { call: m, index: o });
            proof {
                assert(registry@ == held.insert(x, OutputAddr { call: m, index: o }));
                assert(makes(calls@, x, m as int, o as int));
                assert forall|y: u32, m2: int, o2: int| #[trigger]
                    made_before(calls@, y, m2, o2, m as int, o + 1) implies registry@.contains_key(y)
                    && (m2 < registry@[y].call || (m2 == registry@[y].call && o2
                    <= registry@[y].index)) by {
                    if m2 == m && o2 == o {
                        assert(y == x);
                    } else {
                        assert(made_before(calls@, y, m2, o2, m as int, o as int));
                    }
                }
                assert forall|y: u32| #[trigger] registry@.contains_key(y) implies made_before(
                    calls@,
                    y,
                    registry@[y].call as int,
                    registry@[y].index as int,
                    m as int,
                    o + 1,
                ) by {
                    if y != x {
                        assert(held.contains_key(y));
                        assert(made_before(
                            calls@,
                            y,
                            held[y].call as int,
                            held[y].index as int,
                            m as int,
                            o as int,
                        ));
                    }
                }
            }
            o += 1;
        }
        proof {
            assert forall|y: u32, m2: int, o2: int| #[trigger]
                made_before(calls@, y, m2, o2, m + 1, 0) implies registry@.contains_key(y) && (m2
                < registry@[y].call || (m2 == registry@[y].call && o2 <= registry@[y].index)) by {
                assert(made_before(calls@, y, m2, o2, m as int, outputs@.len() as int));
            }
            assert forall|y: u32| #[trigger] registry@.contains_key(y) implies made_before(
                calls@,
                y,
                registry@[y].call as int,
                registry@[y].index as int,
                m + 1,
                0,
            ) by {
                assert(made_before(
                    calls@,
                    y,
                    registry@[y].call as int,
                    registry@[y].index as int,
                    m as int,
                    outputs@.len() as int,
                ));
            }
        }
        m += 1;
    }
    proof {
        let n = calls@.len() as int;
        assert forall|y: u32|
            (#[trigger] registry@.contains_key(y) <==> is_made(calls@, y)) && (
            registry@.contains_key(y) ==> made_last(
                calls@,
                y,
                registry@[y].call as int,
                registry@[y].index as int,
            )) by {
            if is_made(calls@, y) {
                let (m2, o2) = choose|m2: int, o2: int| makes(calls@, y, m2, o2);
                assert(made_before(calls@, y, m2, o2, n, 0));
            }
            if registry@.contains_key(y) {
                assert(made_before(
                    calls@,
                    y,
                    registry@[y].call as int,
                    registry@[y].index as int,
                    n,
                    0,
                ));
                assert forall|m2: int, o2: int| #[trigger] makes(calls@, y, m2, o2) implies m2
                    < registry@[y].call || (m2 == registry@[y].call && o2 <= registry@[y].index) by {
                    assert(made_before(calls@, y, m2, o2, n, 0));
                }
            }
        }
    }
    registry
}

/// Finds the output that last carries the number `x`.
fn find_producer(
    Ghost(calls): Ghost<Seq<FuncConnections>>,
    registry: &HashMap<u32, OutputAddr>,
    x: u32,
) -> (found: Option<(usize, usize)>)
    requires
        registry_of(calls, registry@),
    ensures
        match found {
            Some(at) => made_last(calls, x, at.0 as int, at.1 as int),
            None => !is_made(calls, x),
        },
{
    broadcast use vstd::std_specs::hash::group_hash_axioms;

    assert(registry@.contains_key(x) <==> is_made(calls, x));
    match registry.get(&x) {
        Some(at) => Some((at.call, at.index)),
        None => None,
    }
}

/// The node of call `k`, unless one of its inputs names no output.
fn build_node(
    functions: &Vec<FunctionInfo>,
    calls: &Vec<FuncConnections>,
    registry: &HashMap<u32, OutputAddr>,
    ids: &Vec<Id>,
    k: usize,
) -> (built: Option<Node>)
    requires
        k < calls@.len(),
        ids@.len() == calls@.len(),
        registry_of(calls@, registry@),
        forall|j: int| 0 <= j < calls@.len() ==> connection_fault(functions@, #[trigger] calls@[j]) is None,
    ensures
        built is Some <==> all_made(calls@, k as int),
        built is Some ==> node_built(functions@, calls@, ids@, k as int, built->0),
{
    let call = &calls[k];
    assert(connection_fault(functions@, calls@[k as int]) is None);
    let f = find_function(functions, call.name.as_str()).unwrap();
    let function = &functions[f];
    let mut inputs: Vec<Input> = Vec::new();
    let mut i: usize = 0;
    while i < call.inputs.len()
        invariant
            i <= call.inputs@.len(),
            k < calls@.len(),
            ids@.len() == calls@.len(),
            registry_of(calls@, registry@),
            *call == calls@[k as int],
            f == function_index(functions@, call.name@),
            f < functions@.len(),
            *function == functions@[f as int],
            call.inputs@.len() <= function.inputs@.len(),
            forall|j: int|
                0 <= j < calls@.len() ==> connection_fault(functions@, #[trigger] calls@[j]) is None,
            inputs@.len() == i,
            forall|a: int| 0 <= a < i ==> is_made(calls@, #[trigger] call.inputs@[a]),
            forall|a: int|
                0 <= a < i ==> input_built(functions@, calls@, ids@, k as int, a, #[trigger] inputs@[a]),
        decreases call.inputs@.len() - i,
    {
        let ghost held = inputs@;
        match find_producer(Ghost(calls@), registry, call.inputs[i]) {
            None => {
                return None;
            },
            Some(at) => {
                assert(connection_fault(functions@, calls@[at.0 as int]) is None);
                let binding = Binding::new(ids[at.0], at.1 as u32);
                inputs.push(
                    Input {
                        name: function.inputs[i].name.clone(),
                        data_type: function.inputs[i].data_type,
                        is_required: true,
                        binding: Some(binding),
                    },
                );
                proof {
                    assert(makes(calls@, call.inputs@[i as int], at.0 as int, at.1 as int));
                    assert(made_last(calls@, calls@[k as int].inputs@[i as int], at.0 as int, at.1 as int));
                    assert(input_built(functions@, calls@, ids@, k as int, i as int, inputs@[i as int]));
                }
            },
        }
        proof {
            assert forall|a: int| 0 <= a < i + 1 implies input_built(
                functions@,
                calls@,
                ids@,
                k as int,
                a,
                #[trigger] inputs@[a],
            ) by {
                if a < i {
                    assert(inputs@[a] == held[a]);
                }
            }
        }
        i += 1;
    }
    let mut outputs: Vec<Output> = Vec::new();
    let mut o: usize = 0;
    while o < call.outputs.len()
        invariant
            o <= call.outputs@.len(),
            k < calls@.len(),
            *call == calls@[k as int],
            f == function_index(functions@, call.name@),
            f < functions@.len(),
            *function == functions@[f as int],
            call.outputs@.len() <= function.outputs@.len(),
            outputs@.len() == o,
            forall|a: int|
                0 <= a < o ==> output_built(functions@, calls@, k as int, a, #[trigger] outputs@[a]),
        decreases call.outputs@.len() - o,
    {
        let ghost held = outputs@;
        outputs.push(
            Output { name: function.outputs[o].name.clone(), data_type: function.outputs[o].data_type },
        );
        proof {
            assert forall|a: int| 0 <= a < o + 1 implies output_built(
                functions@,
                calls@,
                k as int,
                a,
                #[trigger] outputs@[a],
            ) by {
                if a < o {
                    assert(outputs@[a] == held[a]);
                }
            }
        }
        o += 1;
    }
    Some(
        Node {
            self_id: ids[k],
            function_id: Id::nil(),
            name: function.name.clone(),
            behavior: NodeBehavior::Active,
            is_output: false,
            inputs,
            outputs,
            subgraph_id: None,
        },
    )
}

/// Whether `made` is what comes of the calls of a script with `ids[k]` as
/// the identifier of the node of call `k`.
///
/// A fault of the script comes first. Then identifiers that repeat are a
/// clash. Otherwise every call becomes a node, and the graph is handed out
/// if it is valid; if it is not, its first fault is the error.
pub open spec fn made_with(
    functions: Seq<FunctionInfo>,
    calls: Seq<FuncConnections>,
    ids: Seq<Id>,
    made: Result<Graph, ScriptError>,
) -> bool {
    match made {
        Ok(graph) => {
            &&& script_fault(functions, calls) is None
            &&& ids.no_duplicates()
            &&& graph_built(functions, calls, ids, graph@.nodes)
            &&& graph@.subgraphs.len() == 0
            &&& valid(graph@)
        },
        Err(error) => match script_fault(functions, calls) {
            Some(fault) => error == fault,
            None => if !ids.no_duplicates() {
                error == ScriptError::IdClash
            } else {
                not_valid_with(functions, calls, ids, error)
            },
        },
    }
}

/// Whether `error` is the first fault of the graph that the calls make with
/// the identifiers `ids`.
pub open spec fn not_valid_with(
    functions: Seq<FunctionInfo>,
    calls: Seq<FuncConnections>,
    ids: Seq<Id>,
    error: ScriptError,
) -> bool {
    exists|view: GraphView|
        {
            &&& graph_built(functions, calls, ids, view.nodes)
            &&& view.subgraphs.len() == 0
            &&& #[trigger] first_fault(view) is Some
            &&& error == ScriptError::Invalid(first_fault(view)->0)
        }
}

/// The fault of the calls of a script, if they have one, and the places
/// where the numbers are handed out.
fn probe(functions: &Vec<FunctionInfo>, calls: &Vec<FuncConnections>) -> (probed: (
    Option<ScriptError>,
    HashMap<u32, OutputAddr>,
))
    ensures
        probed.0 == script_fault(functions@, calls@),
        registry_of(calls@, probed.1@),
{
    let registry = register_outputs(calls);
    let mut k: usize = 0;
    while k < calls.len()
        invariant
            k <= calls@.len(),
            registry_of(calls@, registry@),
            connections_fault(functions@, calls@, k as int) is None,
        decreases calls@.len() - k,
    {
        match check_connection(functions, &calls[k]) {
            Some(fault) => {
                proof {
                    assert(connections_fault(functions@, calls@, k + 1) == Some(fault));
                    lemma_connections_fault_found(functions@, calls@, k + 1, calls@.len() as int);
                }
                return (Some(fault), registry);
            },
            None => {},
        }
        k += 1;
    }
    let mut n: usize = 0;
    while n < calls.len()
        invariant
            n <= calls@.len(),
            registry_of(calls@, registry@),
            connections_fault(functions@, calls@, calls@.len() as int) is None,
            forall|j: int| 0 <= j < n ==> #[trigger] all_made(calls@, j),
        decreases calls@.len() - n,
    {
        let call = &calls[n];
        let mut i: usize = 0;
        while i < call.inputs.len()
            invariant
                n < calls@.len(),
                registry_of(calls@, registry@),
                *call == calls@[n as int],
                i <= call.inputs@.len(),
                connections_fault(functions@, calls@, calls@.len() as int) is None,
                forall|a: int| 0 <= a < i ==> is_made(calls@, #[trigger] call.inputs@[a]),
            decreases call.inputs@.len() - i,
        {
            if find_producer(Ghost(calls@), &registry, call.inputs[i]).is_none() {
                proof {
                    assert(!all_made(calls@, n as int));
                }
                return (Some(ScriptError::UnknownOutput), registry);
            }
            i += 1;
        }
        n += 1;
    }
    (None, registry)
}

/// The fault of the calls of a script, if they have one.
pub fn probe_fault(functions: &Vec<FunctionInfo>, calls: &Vec<FuncConnections>) -> (fault: Option<
    ScriptError,
>)
    ensures
        fault == script_fault(functions@, calls@),
{
    probe(functions, calls).0
}

/// Whether no identifier occurs twice in `ids`.
fn all_distinct(ids: &Vec<Id>) -> (distinct: bool)
    ensures
        distinct == ids@.no_duplicates(),
{
    let mut a: usize = 0;
    while a < ids.len()
        invariant
            a <= ids@.len(),
            forall|x: int, y: int| 0 <= x < a && x < y < ids@.len() ==> ids@[x] != ids@[y],
        decreases ids@.len() - a,
    {
        let mut b: usize = a + 1;
        while b < ids.len()
            invariant
                a < ids@.len(),
                a < b <= ids@.len(),
                forall|y: int| a < y < b ==> ids@[a as int] != ids@[y],
            decreases ids@.len() - b,
        {
            if ids[a] == ids[b] {
                return false;
            }
            b += 1;
        }
        a += 1;
    }
    true
}

/// Makes the graph of what a script connected, with `ids[k]` as the
/// identifier of the node of call `k`: every call becomes a node, and every
/// input of a call is bound to the output that last carries the number that
/// the input names. A fault of the script is reported first, then
/// identifiers that repeat; the graph is handed out only if it is valid.
pub fn create_graph_with(
    functions: &Vec<FunctionInfo>,
    calls: &Vec<FuncConnections>,
    ids: &Vec<Id>,
) -> (made: Result<Graph, ScriptError>)
    requires
        ids@.len() == calls@.len(),
    ensures
        made_with(functions@, calls@, ids@, made),
{
    let probed = probe(functions, calls);
    match probed.0 {
        Some(fault) => {
            return Err(fault);
        },
        None => {},
    }
    let registry = probed.1;
    if !all_distinct(ids) {
        return Err(ScriptError::IdClash);
    }
    proof {
        assert forall|j: int| 0 <= j < calls@.len() implies connection_fault(
            functions@,
            #[trigger] calls@[j],
        ) is None by {
            lemma_connections_sound(functions@, calls@, calls@.len() as int, j);
        }
    }
    let mut graph = Graph::new();
    let mut n: usize = 0;
    while n < calls.len()
        invariant
            n <= calls@.len(),
            ids@.len() == calls@.len(),
            ids@.no_duplicates(),
            registry_of(calls@, registry@),
            script_fault(functions@, calls@) is None,
            forall|j: int|
                0 <= j < calls@.len() ==> connection_fault(functions@, #[trigger] calls@[j]) is None,
            graph@.subgraphs.len() == 0,
            graph@.nodes.len() == n,
            forall|j: int|
                0 <= j < n ==> node_built(functions@, calls@, ids@, j, #[trigger] graph@.nodes[j]),
        decreases calls@.len() - n,
    {
        proof {
            assert(all_made(calls@, n as int));
        }
        let node = build_node(functions, calls, &registry, ids, n).unwrap();
        let ghost held = graph@.nodes;
        proof {
            assert forall|j: int| 0 <= j < held.len() implies held[j].self_id != node.self_id by {
                assert(node_built(functions@, calls@, ids@, j, held[j]));
                assert(ids@[j] != ids@[n as int]);
            }
            assert(!crate::graph::has_node(held, node.self_id));
        }
        graph.add_node(node);
        proof {
            assert forall|j: int| 0 <= j < n + 1 implies node_built(
                functions@,
                calls@,
                ids@,
                j,
                #[trigger] graph@.nodes[j],
            ) by {
                if j < n {
                    assert(graph@.nodes[j] == held[j]);
                }
            }
        }
        n += 1;
    }
    match graph.validate() {
        Ok(()) => Ok(graph),
        Err(fault) => {
            proof {
                assert(first_fault(graph@) is Some);
                assert(not_valid_with(functions@, calls@, ids@, ScriptError::Invalid(fault)));
            }
            Err(ScriptError::Invalid(fault))
        },
    }
}

/// The fault of a script is none of identifiers nor of the graph: it is an
/// unknown function, too many inputs or outputs, or an unknown output.
pub proof fn lemma_script_fault_kinds(functions: Seq<FunctionInfo>, calls: Seq<FuncConnections>)
    ensures
        match script_fault(functions, calls) {
            Some(fault) => fault == ScriptError::UnknownFunction || fault
                == ScriptError::TooManyInputs || fault == ScriptError::TooManyOutputs || fault
                == ScriptError::UnknownOutput,
            None => true,
        },
{
    lemma_connection_fault_kinds(functions, calls, calls.len() as int);
}

proof fn lemma_connection_fault_kinds(
    functions: Seq<FunctionInfo>,
    calls: Seq<FuncConnections>,
    upto: int,
)
    ensures
        match connections_fault(functions, calls, upto) {
            Some(fault) => fault == ScriptError::UnknownFunction || fault
                == ScriptError::TooManyInputs || fault == ScriptError::TooManyOutputs,
            None => true,
        },
    decreases upto,
{
    if upto > 0 {
        lemma_connection_fault_kinds(functions, calls, upto - 1);
    }
}

/// A graph without nodes and without sub-graphs has no fault.
pub proof fn lemma_empty_graph_is_valid(view: GraphView)
    requires
        view.nodes.len() == 0,
        view.subgraphs.len() == 0,
    ensures
        first_fault(view) is None,
        valid(view),
{
    assert forall|path: Seq<int>| !crate::topology::is_loop(view.nodes, path) by {
        if crate::topology::is_loop(view.nodes, path) {
            assert(0 <= path[0] < view.nodes.len());
        }
    }
    crate::validate::lemma_valid_iff_faultless(view);
}

/// Makes the graph of what a script connected, every node under a fresh
/// identifier: the identifiers are drawn, and `create_graph_with` does the
/// rest. A script without calls makes the empty graph, and no draw of fewer
/// than two identifiers is a clash.
pub fn create_graph(functions: &Vec<FunctionInfo>, calls: &Vec<FuncConnections>) -> (made: Result<
    Graph,
    ScriptError,
>)
    ensures
        exists|ids: Seq<Id>|
            ids.len() == calls@.len() && (forall|k: int|
                0 <= k < ids.len() ==> !(#[trigger] ids[k]).is_nil()) && #[trigger] made_with(
                functions@,
                calls@,
                ids,
                made,
            ),
        calls@.len() == 0 ==> made is Ok,
        made is Err && made->Err_0 == ScriptError::IdClash ==> calls@.len() >= 2 && script_fault(
            functions@,
            calls@,
        ) is None,
        made is Err && made->Err_0 is Invalid ==> script_fault(functions@, calls@) is None
            && exists|ids: Seq<Id>|
            ids.len() == calls@.len() && ids.no_duplicates() && #[trigger] not_valid_with(
                functions@,
                calls@,
                ids,
                made->Err_0,
            ),
{
    let mut ids: Vec<Id> = Vec::new();
    let mut k: usize = 0;
    while k < calls.len()
        invariant
            k <= calls@.len(),
            ids@.len() == k,
            forall|j: int| 0 <= j < k ==> !(#[trigger] ids@[j]).is_nil(),
        decreases calls@.len() - k,
    {
        ids.push(Id::new_v4());
        k += 1;
    }
    let made = create_graph_with(functions, calls, &ids);
    proof {
        lemma_script_fault_kinds(functions@, calls@);
        assert(made_with(functions@, calls@, ids@, made));
        if calls@.len() == 0 {
            assert(connections_fault(functions@, calls@, 0) is None);
            assert(script_fault(functions@, calls@) is None);
            if made is Err {
                let view = choose|view: GraphView|
                    {
                        &&& graph_built(functions@, calls@, ids@, view.nodes)
                        &&& view.subgraphs.len() == 0
                        &&& #[trigger] first_fault(view) is Some
                        &&& made->Err_0 == ScriptError::Invalid(first_fault(view)->0)
                    };
                lemma_empty_graph_is_valid(view);
            }
        }
        if made is Err && made->Err_0 is Invalid {
            assert(not_valid_with(functions@, calls@, ids@, made->Err_0));
        }
    }
    made
}

} // verus!
