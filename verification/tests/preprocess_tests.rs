use graph::compute::Completion;
use graph::compute::Compute;
use graph::data_type::DataType;
use graph::graph::Binding;
use graph::graph::BindingBehavior;
use graph::graph::Graph;
use graph::graph::Input;
use graph::graph::Node;
use graph::graph::NodeBehavior;
use graph::graph::Output;
use graph::ident::Id;
use graph::invoke::FunctionId;
use graph::invoke::InvokeArgs;
use graph::invoke::InvokeContext;
use graph::invoke::InvokeError;
use graph::invoke::Invoker;
use graph::invoke::Value;
use graph::preprocess::traverse_backward;
use graph::preprocess::traverse_forward1;
use graph::preprocess::traverse_forward2;
use graph::preprocess::Preprocess;
use graph::runtime_graph::NodeState;
use graph::runtime_graph::RuntimeGraph;
use graph::validate::ValidationError;
use std::cell::Cell;
use std::sync::atomic::AtomicBool;

fn id(n: u128) -> Id {
    Id::from_u128(n)
}

fn output(name: &str) -> Output {
    Output { name: name.to_string(), data_type: DataType::Int }
}

fn input(name: &str, producer: u128, behavior: BindingBehavior) -> Input {
    let mut binding = Binding::new(id(producer), 0);
    binding.behavior = behavior;
    Input {
        name: name.to_string(),
        data_type: DataType::Int,
        is_required: true,
        binding: Some(binding),
    }
}

fn node(n: u128, name: &str, behavior: NodeBehavior) -> Node {
    let mut node = Node::new();
    node.self_id = id(n);
    node.function_id = id(100 + n);
    node.name = name.to_string();
    node.behavior = behavior;
    node
}

/// val1 and val2 are sources, sum takes both, mult takes sum and val2, print
/// is the sink and takes mult. `first` is the behaviour of val1 and `once`
/// that of the two bindings of sum.
fn five_nodes(first: NodeBehavior, once: BindingBehavior) -> Graph {
    let mut graph = Graph::new();

    let mut val1 = node(1, "val1", first);
    val1.outputs.push(output("value"));
    graph.add_node(val1);

    let mut val2 = node(2, "val2", NodeBehavior::Passive);
    val2.outputs.push(output("value"));
    graph.add_node(val2);

    let mut sum = node(3, "sum", NodeBehavior::Passive);
    sum.inputs.push(input("a", 1, once));
    sum.inputs.push(input("b", 2, once));
    sum.outputs.push(output("result"));
    graph.add_node(sum);

    let mut mult = node(4, "mult", NodeBehavior::Passive);
    mult.inputs.push(input("a", 3, BindingBehavior::Always));
    mult.inputs.push(input("b", 2, BindingBehavior::Always));
    mult.outputs.push(output("result"));
    graph.add_node(mult);

    let mut print = node(5, "print", NodeBehavior::Passive);
    print.is_output = true;
    print.inputs.push(input("value", 4, BindingBehavior::Always));
    graph.add_node(print);

    assert!(graph.validate().is_ok());
    graph
}

/// The graph of the project's own runs: val1 is active and sum takes its
/// values once.
fn test_graph() -> Graph {
    five_nodes(NodeBehavior::Active, BindingBehavior::Once)
}

/// The plain graph: every node passive, every binding asking for a value
/// every cycle.
fn plain_graph() -> Graph {
    five_nodes(NodeBehavior::Passive, BindingBehavior::Always)
}

struct EmptyInvoker {}

impl Invoker for EmptyInvoker {
    fn all_functions(&self) -> Vec<FunctionId> {
        vec![]
    }

    fn invoke(
        &self,
        _function_id: FunctionId,
        _ctx: &mut InvokeContext,
        _inputs: &InvokeArgs,
        _outputs: &mut InvokeArgs,
    ) -> Result<(), InvokeError> {
        Ok(())
    }
}

fn plan(graph: &Graph, prev: &mut RuntimeGraph) -> RuntimeGraph {
    assert!(graph.validate().is_ok());
    Preprocess::default().run(graph, prev)
}

fn execute<I: Invoker>(graph: &Graph, invoker: &I, runtime_graph: &mut RuntimeGraph) {
    let never = AtomicBool::new(false);
    let ended = Compute::default().run(graph, invoker, runtime_graph, &never);
    assert!(matches!(ended, Ok(Completion::Finished)));
}

fn names(runtime_graph: &RuntimeGraph) -> Vec<String> {
    runtime_graph.nodes.iter().map(|r_node| r_node.name.clone()).collect()
}

fn decisions(runtime_graph: &RuntimeGraph) -> Vec<bool> {
    ["val1", "val2", "sum", "mult", "print"]
        .iter()
        .map(|name| runtime_graph.node_by_name(name).unwrap().should_execute)
        .collect()
}

#[test]
fn preprocess_tests_simple_run() {
    let graph = test_graph();
    let runtime = Preprocess::default();

    let runtime_graph = runtime.run(&graph, &mut RuntimeGraph::default());
    assert_eq!(runtime_graph.nodes.len(), 5);
    assert_eq!(runtime_graph.node_by_name("val2").unwrap().total_binding_count, 2);
    assert!(runtime_graph.nodes.iter().all(|r_node| r_node.should_execute));
    assert!(runtime_graph.nodes.iter().all(|r_node| !r_node.has_missing_inputs));
}

#[test]
fn missing_input() {
    let mut graph = test_graph();
    graph.node_by_name_mut("sum").unwrap().inputs[0].binding = None;

    let runtime = Preprocess::default();
    let runtime_graph = runtime.run(&graph, &mut RuntimeGraph::default());
    assert_eq!(runtime_graph.nodes.len(), 4);
    assert_eq!(runtime_graph.node_by_name("val2").unwrap().total_binding_count, 2);
    // A node with missing inputs does not run; the others do.
    assert!(runtime_graph
        .nodes
        .iter()
        .all(|r_node| r_node.should_execute == !r_node.has_missing_inputs));
    assert!(runtime_graph.node_by_name("val2").unwrap().should_execute);
    assert!(!runtime_graph.node_by_name("val2").unwrap().has_missing_inputs);
    assert!(runtime_graph.node_by_name("sum").unwrap().has_missing_inputs);
    assert!(runtime_graph.node_by_name("mult").unwrap().has_missing_inputs);
    assert!(runtime_graph.node_by_name("print").unwrap().has_missing_inputs);
}

#[test]
fn fresh_plan_runs_every_node() {
    let graph = plain_graph();
    let mut prev = RuntimeGraph::new();
    let next = plan(&graph, &mut prev);

    assert!(prev.nodes.is_empty());
    assert_eq!(names(&next), vec!["val1", "val2", "sum", "mult", "print"]);
    assert_eq!(decisions(&next), vec![true, true, true, true, true]);
    // What is to run counts as having outputs; nothing is cached yet.
    assert!(next.nodes.iter().all(|r_node| r_node.has_outputs));
    assert!(next.nodes.iter().all(|r_node| r_node.output_values.is_empty()));
    assert!(next.nodes.iter().all(|r_node| r_node.edge_behavior == BindingBehavior::Always));
    assert!(next.nodes.iter().all(|r_node| r_node.state() == NodeState::MustExecute));
    let counts: Vec<u32> = next.nodes.iter().map(|r_node| r_node.total_binding_count).collect();
    assert_eq!(counts, vec![1, 2, 1, 1, 0]);
    let sinks: Vec<bool> = next.nodes.iter().map(|r_node| r_node.is_output).collect();
    assert_eq!(sinks, vec![false, false, false, false, true]);
    assert_eq!(next.node_by_id(id(4)).unwrap().node_id(), id(4));
    assert!(next.node_by_id(id(9)).is_none());
    assert!(next.node_by_name("nothing").is_none());
}

#[test]
fn later_plans_follow_what_ran_the_cycle_before() {
    let graph = plain_graph();
    let invoker = EmptyInvoker {};
    let mut current = plan(&graph, &mut RuntimeGraph::new());
    execute(&graph, &invoker, &mut current);
    assert!(current.nodes.iter().all(|r_node| r_node.has_outputs));

    // Second plan: the sources keep their values; sum and mult have a
    // producer that ran in the first cycle; the sink always runs.
    let mut current = plan(&graph, &mut current);
    assert!(current.nodes.iter().all(|r_node| r_node.has_outputs));
    assert_eq!(decisions(&current), vec![false, false, true, true, true]);
    execute(&graph, &invoker, &mut current);

    let mut current = plan(&graph, &mut current);
    assert_eq!(decisions(&current), vec![false, false, false, true, true]);
    execute(&graph, &invoker, &mut current);

    let mut current = plan(&graph, &mut current);
    assert_eq!(decisions(&current), vec![false, false, false, false, true]);
    execute(&graph, &invoker, &mut current);

    let current = plan(&graph, &mut current);
    assert_eq!(decisions(&current), vec![false, false, false, false, true]);
}

#[test]
fn a_passive_node_without_a_demanding_input_rests_in_the_second_plan() {
    let graph = test_graph();
    let invoker = EmptyInvoker {};
    let mut current = plan(&graph, &mut RuntimeGraph::new());
    execute(&graph, &invoker, &mut current);
    let current = plan(&graph, &mut current);
    // val1 is active but nobody asks it for a value every cycle; sum takes
    // its values once; mult has inputs that ask every cycle.
    assert_eq!(decisions(&current), vec![false, false, false, true, true]);
    assert_eq!(current.node_by_name("val1").unwrap().edge_behavior, BindingBehavior::Once);
    assert_eq!(current.node_by_name("val2").unwrap().edge_behavior, BindingBehavior::Always);
    assert_eq!(current.node_by_name("sum").unwrap().edge_behavior, BindingBehavior::Always);
    assert_eq!(current.node_by_name("val1").unwrap().state(), NodeState::Skippable);
}

#[test]
fn an_active_source_runs_and_its_consumers_follow() {
    let mut graph = plain_graph();
    let invoker = EmptyInvoker {};
    let mut current = plan(&graph, &mut RuntimeGraph::new());
    execute(&graph, &invoker, &mut current);
    let mut current = plan(&graph, &mut current);
    execute(&graph, &invoker, &mut current);

    graph.node_by_name_mut("val2").unwrap().behavior = NodeBehavior::Active;
    let mut current = plan(&graph, &mut current);
    // val2 runs at once; mult runs because sum ran the cycle before; sum
    // itself sees val2 only in the next plan.
    assert_eq!(decisions(&current), vec![false, true, false, true, true]);
    execute(&graph, &invoker, &mut current);
    let current = plan(&graph, &mut current);
    assert_eq!(decisions(&current), vec![false, true, true, true, true]);
}

#[test]
fn a_once_binding_lowers_the_edge_behaviour() {
    let mut graph = plain_graph();
    let invoker = EmptyInvoker {};
    let mut current = plan(&graph, &mut RuntimeGraph::new());
    execute(&graph, &invoker, &mut current);
    let mut current = plan(&graph, &mut current);
    execute(&graph, &invoker, &mut current);

    graph.node_by_name_mut("mult").unwrap().inputs[0].binding.as_mut().unwrap().behavior =
        BindingBehavior::Once;
    let current = plan(&graph, &mut current);
    assert_eq!(current.node_by_name("sum").unwrap().edge_behavior, BindingBehavior::Once);
    assert_eq!(current.node_by_name("val1").unwrap().edge_behavior, BindingBehavior::Once);
    assert_eq!(current.node_by_name("val2").unwrap().edge_behavior, BindingBehavior::Always);
    assert_eq!(current.node_by_name("mult").unwrap().edge_behavior, BindingBehavior::Always);
    assert_eq!(decisions(&current), vec![false, false, false, false, true]);
}

#[test]
fn a_removed_node_leaves_missing_inputs_behind() {
    let mut graph = plain_graph();
    let invoker = EmptyInvoker {};
    let mut current = plan(&graph, &mut RuntimeGraph::new());
    execute(&graph, &invoker, &mut current);

    graph.remove_node_by_id(id(2));
    let current = plan(&graph, &mut current);
    assert_eq!(names(&current), vec!["val1", "sum", "mult", "print"]);
    assert!(current.node_by_name("val2").is_none());
    assert!(!current.node_by_name("val1").unwrap().has_missing_inputs);
    assert!(current.node_by_name("sum").unwrap().has_missing_inputs);
    assert!(current.node_by_name("mult").unwrap().has_missing_inputs);
    assert!(current.node_by_name("print").unwrap().has_missing_inputs);
    assert!(current.nodes.iter().all(|r_node| !r_node.should_execute));
    assert_eq!(current.node_by_name("sum").unwrap().state(), NodeState::Missing);
}

#[test]
fn an_optional_input_may_stay_open() {
    let mut graph = plain_graph();
    {
        let sum = graph.node_by_name_mut("sum").unwrap();
        sum.inputs[0].binding = None;
        sum.inputs[0].is_required = false;
    }
    let next = plan(&graph, &mut RuntimeGraph::new());
    assert_eq!(names(&next), vec!["val2", "sum", "mult", "print"]);
    assert!(next.nodes.iter().all(|r_node| !r_node.has_missing_inputs));
    assert!(next.nodes.iter().all(|r_node| r_node.should_execute));
}

#[test]
fn nodes_that_no_sink_reaches_are_left_out() {
    let mut graph = plain_graph();
    let mut spare = node(6, "spare", NodeBehavior::Active);
    spare.inputs.push(input("value", 4, BindingBehavior::Always));
    graph.add_node(spare);
    let next = plan(&graph, &mut RuntimeGraph::new());
    assert_eq!(next.nodes.len(), 5);
    assert!(next.node_by_name("spare").is_none());
    // The binding of a node outside the plan does not count.
    assert_eq!(next.node_by_name("mult").unwrap().total_binding_count, 1);

    let mut graph = plain_graph();
    graph.node_by_name_mut("print").unwrap().is_output = false;
    let next = plan(&graph, &mut RuntimeGraph::new());
    assert!(next.nodes.is_empty());
}

#[test]
fn producers_come_first_where_the_order_of_discovery_does_not_say_so() {
    let mut graph = Graph::new();
    let mut c = node(1, "c", NodeBehavior::Passive);
    c.outputs.push(output("value"));
    graph.add_node(c);
    let mut a = node(2, "a", NodeBehavior::Passive);
    a.inputs.push(input("c", 1, BindingBehavior::Always));
    a.outputs.push(output("value"));
    graph.add_node(a);
    let mut b = node(3, "b", NodeBehavior::Passive);
    b.inputs.push(input("a", 2, BindingBehavior::Always));
    b.outputs.push(output("value"));
    graph.add_node(b);
    let mut s = node(4, "s", NodeBehavior::Passive);
    s.is_output = true;
    s.inputs.push(input("a", 2, BindingBehavior::Always));
    s.inputs.push(input("b", 3, BindingBehavior::Always));
    graph.add_node(s);

    // Found in the order s, a, b, c: reversed, b would stand before a.
    let next = plan(&graph, &mut RuntimeGraph::new());
    assert_eq!(names(&next), vec!["c", "a", "b", "s"]);

    graph.node_by_name_mut("c").unwrap().inputs.push(Input {
        name: "open".to_string(),
        data_type: DataType::Int,
        is_required: true,
        binding: None,
    });
    let next = plan(&graph, &mut RuntimeGraph::new());
    assert!(next.nodes.iter().all(|r_node| r_node.has_missing_inputs));
    assert!(next.nodes.iter().all(|r_node| !r_node.should_execute && !r_node.has_outputs));
}

#[test]
fn the_most_demanding_path_decides_the_edge_behaviour() {
    let mut graph = Graph::new();
    let mut z = node(1, "z", NodeBehavior::Passive);
    z.outputs.push(output("value"));
    graph.add_node(z);
    let mut x = node(2, "x", NodeBehavior::Passive);
    x.inputs.push(input("z", 1, BindingBehavior::Always));
    x.outputs.push(output("value"));
    graph.add_node(x);
    let mut y = node(3, "y", NodeBehavior::Passive);
    y.inputs.push(input("x", 2, BindingBehavior::Always));
    y.outputs.push(output("value"));
    graph.add_node(y);
    let mut w = node(4, "w", NodeBehavior::Passive);
    w.outputs.push(output("value"));
    graph.add_node(w);
    let mut print = node(5, "print", NodeBehavior::Passive);
    print.is_output = true;
    print.inputs.push(input("x", 2, BindingBehavior::Once));
    print.inputs.push(input("y", 3, BindingBehavior::Always));
    print.inputs.push(input("w", 4, BindingBehavior::Once));
    graph.add_node(print);

    let next = plan(&graph, &mut RuntimeGraph::new());
    // x is found first through a binding that asks once, and z through x;
    // the path print -> y -> x -> z asks every cycle all the way.
    for name in ["print", "y", "x", "z"] {
        assert_eq!(next.node_by_name(name).unwrap().edge_behavior, BindingBehavior::Always);
    }
    assert_eq!(next.node_by_name("w").unwrap().edge_behavior, BindingBehavior::Once);
    assert_eq!(next.node_by_name("x").unwrap().total_binding_count, 2);
}

#[test]
fn a_node_under_two_sinks_takes_the_stronger_demand() {
    let mut graph = Graph::new();
    let mut source = node(1, "source", NodeBehavior::Active);
    source.outputs.push(output("value"));
    graph.add_node(source);
    let mut lazy = node(2, "lazy", NodeBehavior::Passive);
    lazy.is_output = true;
    lazy.inputs.push(input("value", 1, BindingBehavior::Once));
    graph.add_node(lazy);
    let mut eager = node(3, "eager", NodeBehavior::Passive);
    eager.is_output = true;
    eager.inputs.push(input("value", 1, BindingBehavior::Always));
    graph.add_node(eager);

    let invoker = EmptyInvoker {};
    let mut current = plan(&graph, &mut RuntimeGraph::new());
    assert_eq!(current.node_by_name("source").unwrap().edge_behavior, BindingBehavior::Always);
    assert_eq!(current.nodes.last().unwrap().name, "lazy");
    execute(&graph, &invoker, &mut current);
    let current = plan(&graph, &mut current);
    assert!(current.node_by_name("source").unwrap().should_execute);

    graph.node_by_name_mut("eager").unwrap().is_output = false;
    let current = plan(&graph, &mut RuntimeGraph::new());
    assert_eq!(current.nodes.len(), 2);
    assert_eq!(current.node_by_name("source").unwrap().edge_behavior, BindingBehavior::Once);
}

#[test]
fn a_new_node_runs_in_its_first_plan() {
    let mut graph = plain_graph();
    let invoker = EmptyInvoker {};
    let mut current = plan(&graph, &mut RuntimeGraph::new());
    execute(&graph, &invoker, &mut current);

    let mut val3 = node(6, "val3", NodeBehavior::Passive);
    val3.outputs.push(output("value"));
    graph.add_node(val3);
    graph.node_by_name_mut("sum").unwrap().inputs[0].binding = Some(Binding::new(id(6), 0));
    let current = plan(&graph, &mut current);
    let val3 = current.node_by_name("val3").unwrap();
    assert!(val3.should_execute && val3.has_outputs);
    assert!(current.node_by_name("val1").is_none());
}

#[test]
fn checked_run_reports_a_fault_and_keeps_the_previous_plan() {
    let mut graph = plain_graph();
    let mut current = plan(&graph, &mut RuntimeGraph::new());
    graph.node_by_name_mut("val1").unwrap().inputs.push(input("back", 4, BindingBehavior::Always));

    let planner = Preprocess::default();
    let refused = planner.checked_run(&graph, &mut current);
    assert_eq!(refused.err(), Some(ValidationError::Cycle));
    assert_eq!(current.nodes.len(), 5);

    graph.node_by_name_mut("val1").unwrap().inputs.clear();
    let next = planner.checked_run(&graph, &mut current).unwrap();
    assert_eq!(next.nodes.len(), 5);
    assert!(current.nodes.is_empty());
}

#[test]
fn run_in_place_replaces_the_plan() {
    let graph = plain_graph();
    let mut runtime_graph = RuntimeGraph::new();
    runtime_graph.run(&graph);
    assert_eq!(runtime_graph.nodes.len(), 5);
    assert_eq!(decisions(&runtime_graph), vec![true, true, true, true, true]);
    runtime_graph.run(&graph);
    // Nothing was executed, but the plan says that every node has outputs.
    assert_eq!(decisions(&runtime_graph), vec![false, false, true, true, true]);
}

struct Arithmetic {
    a: Cell<i64>,
    b: Cell<i64>,
    captured: Cell<i64>,
}

fn number_of(value: &Value) -> i64 {
    match value {
        Value::Int(number) => *number,
        _ => panic!("an integer was expected"),
    }
}

impl Invoker for Arithmetic {
    fn all_functions(&self) -> Vec<FunctionId> {
        vec![id(101), id(102), id(103), id(104), id(105)]
    }

    fn invoke(
        &self,
        function_id: FunctionId,
        _ctx: &mut InvokeContext,
        inputs: &InvokeArgs,
        outputs: &mut InvokeArgs,
    ) -> Result<(), InvokeError> {
        match function_id.as_u128() {
            101 => outputs[0] = Value::Int(self.a.get()),
            102 => outputs[0] = Value::Int(self.b.get()),
            103 => outputs[0] = Value::Int(number_of(&inputs[0]) + number_of(&inputs[1])),
            104 => outputs[0] = Value::Int(number_of(&inputs[0]) * number_of(&inputs[1])),
            105 => self.captured.set(number_of(&inputs[0])),
            _ => return Err(InvokeError::Fatal("unknown function".to_string())),
        }
        Ok(())
    }
}

#[test]
fn values_flow_along_the_bindings() {
    let invoker = Arithmetic { a: Cell::new(2), b: Cell::new(5), captured: Cell::new(0) };
    let mut graph = plain_graph();

    let mut current = plan(&graph, &mut RuntimeGraph::new());
    execute(&graph, &invoker, &mut current);
    assert_eq!(invoker.captured.get(), 35);
    assert_eq!(number_of(&current.node_by_name("sum").unwrap().output_values[0]), 7);

    let mut current = plan(&graph, &mut current);
    // The cached values go over to the next plan.
    assert_eq!(number_of(&current.node_by_name("val1").unwrap().output_values[0]), 2);
    assert_eq!(number_of(&current.node_by_name("mult").unwrap().output_values[0]), 35);
    execute(&graph, &invoker, &mut current);
    assert_eq!(invoker.captured.get(), 35);

    invoker.b.set(7);
    graph.node_by_name_mut("val2").unwrap().behavior = NodeBehavior::Active;
    let mut current = plan(&graph, &mut current);
    execute(&graph, &invoker, &mut current);
    assert_eq!(invoker.captured.get(), 49);

    graph.node_by_name_mut("sum").unwrap().inputs[0].binding.as_mut().unwrap().behavior =
        BindingBehavior::Always;
    let mut current = plan(&graph, &mut current);
    execute(&graph, &invoker, &mut current);
    assert_eq!(invoker.captured.get(), 63);
}

#[test]
fn two_plans_of_one_graph_are_the_same_plan() {
    let graph = test_graph();
    let invoker = EmptyInvoker {};
    let mut first = plan(&graph, &mut RuntimeGraph::new());
    execute(&graph, &invoker, &mut first);
    let mut copy = first.clone();
    let one = plan(&graph, &mut first);
    let other = plan(&graph, &mut copy);
    assert_eq!(names(&one), names(&other));
    assert_eq!(one.nodes.len(), other.nodes.len());
    for (a, b) in one.nodes.iter().zip(other.nodes.iter()) {
        assert_eq!(a.node_id, b.node_id);
        assert_eq!(a.should_execute, b.should_execute);
        assert_eq!(a.has_outputs, b.has_outputs);
        assert_eq!(a.has_missing_inputs, b.has_missing_inputs);
        assert_eq!(a.edge_behavior, b.edge_behavior);
        assert_eq!(a.total_binding_count, b.total_binding_count);
    }
}

#[test]
fn the_plan_is_the_reverse_of_the_order_of_discovery() {
    // Two sinks, found in the order of the graph; the second takes a source
    // once, the first takes another every cycle.
    let mut graph = Graph::new();
    let mut left = node(1, "left", NodeBehavior::Passive);
    left.outputs.push(output("value"));
    graph.add_node(left);
    let mut right = node(2, "right", NodeBehavior::Passive);
    right.outputs.push(output("value"));
    graph.add_node(right);
    let mut first = node(3, "first", NodeBehavior::Passive);
    first.is_output = true;
    first.inputs.push(input("value", 1, BindingBehavior::Always));
    graph.add_node(first);
    let mut second = node(4, "second", NodeBehavior::Passive);
    second.is_output = true;
    second.inputs.push(input("value", 2, BindingBehavior::Once));
    graph.add_node(second);

    // Found: first, second, then left along the demanding binding, then
    // right; the plan is that list turned round.
    let next = plan(&graph, &mut RuntimeGraph::new());
    assert_eq!(names(&next), vec!["right", "left", "second", "first"]);
}

#[test]
fn the_backward_pass_finds_what_the_sinks_reach() {
    let mut graph = plain_graph();
    let mut spare = node(6, "spare", NodeBehavior::Active);
    spare.inputs.push(input("value", 4, BindingBehavior::Always));
    graph.add_node(spare);
    graph.node_by_name_mut("mult").unwrap().inputs[0].binding.as_mut().unwrap().behavior =
        BindingBehavior::Once;
    assert!(graph.validate().is_ok());

    // Found: print, mult, val2 along the demanding bindings, then sum and
    // val1. Turned round, sum would stand before val2, which it consumes, so
    // val2 goes first.
    let found = traverse_backward(graph.nodes());
    assert_eq!(found.order, vec![0, 1, 2, 3, 4]);
    assert_eq!(found.reached, vec![true, true, true, true, true, false]);
    // sum and val1 are asked only once; val2 is asked every cycle by mult.
    assert_eq!(found.asked, vec![false, true, false, true, true, false]);
}

#[test]
fn the_forward_passes_mark_and_decide() {
    let mut graph = plain_graph();
    graph.node_by_name_mut("sum").unwrap().inputs[0].binding = None;
    assert!(graph.validate().is_ok());

    let found = traverse_backward(graph.nodes());
    assert_eq!(found.order, vec![1, 2, 3, 4]);
    let starved = traverse_forward1(graph.nodes(), &found.order);
    assert_eq!(starved, vec![false, false, true, true, true]);

    let prev = RuntimeGraph::new();
    let entries = traverse_forward2(graph.nodes(), &prev.nodes, &found, &starved);
    let decided: Vec<(String, bool, bool)> = entries
        .iter()
        .map(|entry| (entry.name.clone(), entry.should_execute, entry.has_missing_inputs))
        .collect();
    assert_eq!(
        decided,
        vec![
            ("val2".to_string(), true, false),
            ("sum".to_string(), false, true),
            ("mult".to_string(), false, true),
            ("print".to_string(), false, true),
        ]
    );
    assert!(entries.iter().all(|entry| entry.output_values.is_empty()));
}
