use graph::compute::Completion;
use graph::compute::Compute;
use graph::data_type::DataType;
use graph::graph::Binding;
use graph::graph::BindingBehavior;
use graph::graph::Graph;
use graph::graph::Input;
use graph::graph::Node;
use graph::graph::NodeBehavior;
use graph::graph::Output;
use graph::ident::Id;
use graph::invoke::FunctionId;
use graph::invoke::InvokeArgs;
use graph::invoke::InvokeContext;
use graph::invoke::InvokeError;
use graph::invoke::Invoker;
use graph::invoke::Value;
use graph::preprocess::Preprocess;
use graph::runtime_graph::RuntimeGraph;
use std::cell::Cell;
use std::sync::atomic::AtomicBool;

fn id(n: u128) -> Id {
    Id::from_u128(n)
}

fn output(name: &str) -> Output {
    Output { name: name.to_string(), data_type: DataType::Int }
}

fn input(name: &str, producer: u128, behavior: BindingBehavior) -> Input {
    let mut binding = Binding::new(id(producer), 0);
    binding.behavior = behavior;
    Input {
        name: name.to_string(),
        data_type: DataType::Int,
        is_required: true,
        binding: Some(binding),
    }
}

fn node(n: u128, name: &str, behavior: NodeBehavior) -> Node {
    let mut node = Node::new();
    node.self_id = id(n);
    node.function_id = id(100 + n);
    node.name = name.to_string();
    node.behavior = behavior;
    node
}

/// Two values, their sum, the sum times the second value, and a sink that
/// takes the product. The first value is active; the sum takes both values
/// once; every other binding asks for a value every cycle.
fn test_graph() -> Graph {
    let mut graph = Graph::new();

    let mut val0 = node(1, "val0", NodeBehavior::Active);
    val0.outputs.push(output("value"));
    graph.add_node(val0);

    let mut val1 = node(2, "val1", NodeBehavior::Passive);
    val1.outputs.push(output("value"));
    graph.add_node(val1);

    let mut sum = node(3, "sum", NodeBehavior::Passive);
    sum.inputs.push(input("a", 1, BindingBehavior::Once));
    sum.inputs.push(input("b", 2, BindingBehavior::Once));
    sum.outputs.push(output("result"));
    graph.add_node(sum);

    let mut mult = node(4, "mult", NodeBehavior::Passive);
    mult.inputs.push(input("a", 3, BindingBehavior::Always));
    mult.inputs.push(input("b", 2, BindingBehavior::Always));
    mult.outputs.push(output("result"));
    graph.add_node(mult);

    let mut print = node(5, "print", NodeBehavior::Passive);
    print.is_output = true;
    print.inputs.push(input("value", 4, BindingBehavior::Always));
    graph.add_node(print);

    assert!(graph.validate().is_ok());
    graph
}

struct EmptyInvoker {}

impl Invoker for EmptyInvoker {
    fn all_functions(&self) -> Vec<FunctionId> {
        vec![]
    }

    fn invoke(
        &self,
        _function_id: FunctionId,
        _ctx: &mut InvokeContext,
        _inputs: &InvokeArgs,
        _outputs: &mut InvokeArgs,
    ) -> Result<(), InvokeError> {
        Ok(())
    }
}

struct Runtime {
    plan: RuntimeGraph,
}

impl Runtime {
    fn new() -> Runtime {
        Runtime { plan: RuntimeGraph::new() }
    }

    fn prepare(&mut self, graph: &Graph) {
        self.plan = Preprocess::default().run(graph, &mut self.plan);
    }

    fn run<I: Invoker>(&mut self, graph: &Graph, invoker: &I) {
        let never = AtomicBool::new(false);
        let ended = Compute::default().run(graph, invoker, &mut self.plan, &never);
        assert!(matches!(ended, Ok(Completion::Finished)));
    }

    fn should_execute(&self, n: u128) -> bool {
        self.plan.node_by_id(id(n)).unwrap().should_execute
    }
}

#[test]
fn runtime_tests_simple_run() {
    let graph = test_graph();
    let mut runtime = Runtime::new();
    let invoker = EmptyInvoker {};

    runtime.prepare(&graph);
    assert_eq!(runtime.plan.nodes.iter().all(|_node| _node.should_execute), true);
    // A node that is to run counts as having outputs from the plan on.
    assert_eq!(runtime.plan.nodes.iter().all(|_node| _node.has_outputs), true);

    runtime.run(&graph, &invoker);
    assert_eq!(runtime.plan.nodes.iter().all(|_node| _node.should_execute), true);
    assert_eq!(runtime.plan.nodes.iter().all(|_node| _node.has_outputs), true);
}

#[test]
fn double_run() {
    let graph = test_graph();
    let mut runtime = Runtime::new();
    let invoker = EmptyInvoker {};

    runtime.prepare(&graph);
    runtime.run(&graph, &invoker);

    runtime.prepare(&graph);
    assert_eq!(runtime.plan.nodes.iter().all(|_node| _node.has_outputs), true);
    assert_eq!(runtime.should_execute(1), false);
    assert_eq!(runtime.should_execute(2), false);
    assert_eq!(runtime.should_execute(3), false);
    // The product sees that the sum ran in the cycle before.
    assert_eq!(runtime.should_execute(4), true);
    assert_eq!(runtime.should_execute(5), true);

    runtime.run(&graph, &invoker);
    assert_eq!(runtime.plan.nodes.iter().all(|_node| _node.has_outputs), true);
}

#[test]
fn node_behavior_active_test() {
    let mut graph = test_graph();
    let mut runtime = Runtime::new();
    let invoker = EmptyInvoker {};

    runtime.prepare(&graph);
    runtime.run(&graph, &invoker);

    graph.node_by_id_mut(id(2)).unwrap().behavior = NodeBehavior::Active;
    runtime.prepare(&graph);
    assert_eq!(runtime.plan.nodes.iter().all(|_node| _node.has_outputs), true);
    assert_eq!(runtime.should_execute(1), false);
    assert_eq!(runtime.should_execute(2), true);
    assert_eq!(runtime.should_execute(3), false);
    assert_eq!(runtime.should_execute(4), true);
    assert_eq!(runtime.should_execute(5), true);
}

#[test]
fn edge_behavior_once_test() {
    let mut graph = test_graph();
    let mut runtime = Runtime::new();
    let invoker = EmptyInvoker {};

    runtime.prepare(&graph);
    runtime.run(&graph, &invoker);

    graph
        .node_by_id_mut(id(4))
        .unwrap()
        .inputs
        .get_mut(1)
        .unwrap()
        .binding
        .as_mut()
        .unwrap()
        .behavior = BindingBehavior::Once;

    runtime.prepare(&graph);
    assert_eq!(runtime.plan.nodes.iter().all(|_node| _node.has_outputs), true);
    assert_eq!(runtime.should_execute(1), false);
    assert_eq!(runtime.should_execute(2), false);
    assert_eq!(runtime.should_execute(3), false);
    // The product sees that the sum ran in the cycle before.
    assert_eq!(runtime.should_execute(4), true);
    assert_eq!(runtime.should_execute(5), true);
}

#[test]
fn edge_behavior_always_test() {
    let mut graph = test_graph();
    let mut runtime = Runtime::new();
    let invoker = EmptyInvoker {};

    runtime.prepare(&graph);
    runtime.run(&graph, &invoker);

    graph
        .node_by_id_mut(id(3))
        .unwrap()
        .inputs
        .get_mut(0)
        .unwrap()
        .binding
        .as_mut()
        .unwrap()
        .behavior = BindingBehavior::Always;

    runtime.prepare(&graph);
    assert_eq!(runtime.plan.nodes.iter().all(|_node| _node.has_outputs), true);
    assert_eq!(runtime.should_execute(1), true);
    assert_eq!(runtime.should_execute(2), false);
    assert_eq!(runtime.should_execute(3), true);
    assert_eq!(runtime.should_execute(4), true);
    assert_eq!(runtime.should_execute(5), true);
}

#[test]
fn multiple_runs_with_various_modifications() {
    let mut graph = test_graph();
    let mut runtime = Runtime::new();
    let invoker = EmptyInvoker {};

    runtime.prepare(&graph);
    runtime.run(&graph, &invoker);

    {
        runtime.prepare(&graph);
        assert_eq!(runtime.plan.nodes.iter().all(|_node| _node.has_outputs), true);
        assert_eq!(runtime.should_execute(1), false);
        assert_eq!(runtime.should_execute(2), false);
        assert_eq!(runtime.should_execute(3), false);
        // The sum ran in the cycle before.
        assert_eq!(runtime.should_execute(4), true);
        assert_eq!(runtime.should_execute(5), true);
    }
    {
        graph.node_by_id_mut(id(2)).unwrap().behavior = NodeBehavior::Active;
        runtime.prepare(&graph);
        assert_eq!(runtime.plan.nodes.iter().all(|_node| _node.has_outputs), true);
        assert_eq!(runtime.should_execute(1), false);
        assert_eq!(runtime.should_execute(2), true);
        assert_eq!(runtime.should_execute(3), false);
        // Neither producer of the product was to run in the plan before.
        assert_eq!(runtime.should_execute(4), false);
        assert_eq!(runtime.should_execute(5), true);
    }
    {
        graph
            .node_by_id_mut(id(4))
            .unwrap()
            .inputs
            .get_mut(1)
            .unwrap()
            .binding
            .as_mut()
            .unwrap()
            .behavior = BindingBehavior::Once;
        runtime.prepare(&graph);
        assert_eq!(runtime.plan.nodes.iter().all(|_node| _node.has_outputs), true);
        assert_eq!(runtime.should_execute(1), false);
        assert_eq!(runtime.should_execute(2), false);
        assert_eq!(runtime.should_execute(3), false);
        assert_eq!(runtime.should_execute(4), false);
        assert_eq!(runtime.should_execute(5), true);
    }
    {
        graph
            .node_by_id_mut(id(3))
            .unwrap()
            .inputs
            .get_mut(1)
            .unwrap()
            .binding
            .as_mut()
            .unwrap()
            .behavior = BindingBehavior::Always;
        runtime.prepare(&graph);
        assert_eq!(runtime.plan.nodes.iter().all(|_node| _node.has_outputs), true);
        assert_eq!(runtime.should_execute(1), false);
        assert_eq!(runtime.should_execute(2), true);
        // The second value was not to run in the plan before: the sum follows
        // one plan later, and the product one plan after the sum.
        assert_eq!(runtime.should_execute(3), false);
        assert_eq!(runtime.should_execute(4), false);
        assert_eq!(runtime.should_execute(5), true);

        runtime.prepare(&graph);
        assert_eq!(runtime.should_execute(3), true);
        assert_eq!(runtime.should_execute(4), false);

        runtime.prepare(&graph);
        assert_eq!(runtime.should_execute(3), true);
        assert_eq!(runtime.should_execute(4), true);
    }
}

struct LambdaInvoker {
    a: Cell<i64>,
    b: Cell<i64>,
    result: Cell<i64>,
}

fn number_of(value: &Value) -> i64 {
    match value {
        Value::Int(number) => *number,
        _ => panic!("an integer was expected"),
    }
}

impl Invoker for LambdaInvoker {
    fn all_functions(&self) -> Vec<FunctionId> {
        vec![id(101), id(102), id(103), id(104), id(105)]
    }

    fn invoke(
        &self,
        function_id: FunctionId,
        _ctx: &mut InvokeContext,
        inputs: &InvokeArgs,
        outputs: &mut InvokeArgs,
    ) -> Result<(), InvokeError> {
        match function_id.as_u128() {
            // val0
            101 => outputs[0] = Value::Int(self.a.get()),
            // val1
            102 => outputs[0] = Value::Int(self.b.get()),
            // sum
            103 => outputs[0] = Value::Int(number_of(&inputs[0]) + number_of(&inputs[1])),
            // mult
            104 => outputs[0] = Value::Int(number_of(&inputs[0]) * number_of(&inputs[1])),
            // print
            105 => self.result.set(number_of(&inputs[0])),
            _ => return Err(InvokeError::Fatal("unknown function".to_string())),
        }
        Ok(())
    }
}

#[test]
fn simple_compute_test() {
    let invoker = LambdaInvoker { a: Cell::new(2), b: Cell::new(5), result: Cell::new(0) };

    let mut graph = test_graph();
    let mut compute = Runtime::new();

    compute.prepare(&graph);
    compute.run(&graph, &invoker);
    assert_eq!(invoker.result.get(), 35);

    compute.prepare(&graph);
    compute.run(&graph, &invoker);
    assert_eq!(invoker.result.get(), 35);

    invoker.b.set(7);
    graph.node_by_id_mut(id(2)).unwrap().behavior = NodeBehavior::Active;
    compute.prepare(&graph);
    compute.run(&graph, &invoker);
    // The product runs in the cycle after the one in which its producer ran.
    assert_eq!(invoker.result.get(), 35);
    compute.prepare(&graph);
    compute.run(&graph, &invoker);
    assert_eq!(invoker.result.get(), 49);

    graph
        .node_by_id_mut(id(3))
        .unwrap()
        .inputs
        .get_mut(0)
        .unwrap()
        .binding
        .as_mut()
        .unwrap()
        .behavior = BindingBehavior::Always;
    compute.prepare(&graph);
    compute.run(&graph, &invoker);
    compute.prepare(&graph);
    compute.run(&graph, &invoker);
    assert_eq!(invoker.result.get(), 63);

    drop(graph);
}
