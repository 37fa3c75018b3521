use graph::compute::gather_inputs;
use graph::compute::is_cut_off;
use graph::compute::settle;
use graph::compute::Completion;
use graph::compute::Compute;
use graph::data_type::DataType;
use graph::graph::Binding;
use graph::graph::BindingBehavior;
use graph::graph::Graph;
use graph::graph::Input;
use graph::graph::Node;
use graph::graph::NodeBehavior;
use graph::graph::Output;
use graph::ident::Id;
use graph::invoke::store_outputs;
use graph::invoke::FunctionId;
use graph::invoke::InvokeArgs;
use graph::invoke::InvokeContext;
use graph::invoke::InvokeError;
use graph::invoke::Invoker;
use graph::invoke::Value;
use graph::preprocess::Preprocess;
use graph::runtime_graph::RuntimeGraph;
use graph::runtime_graph::RuntimeNode;
use std::cell::Cell;
use std::cell::RefCell;
use std::sync::atomic::AtomicBool;
use std::sync::atomic::Ordering;

fn id(n: u128) -> Id {
    Id::from_u128(n)
}

fn output(name: &str) -> Output {
    Output { name: name.to_string(), data_type: DataType::Int }
}

fn input(name: &str, producer: u128) -> Input {
    Input {
        name: name.to_string(),
        data_type: DataType::Int,
        is_required: true,
        binding: Some(Binding::new(id(producer), 0)),
    }
}

fn node(n: u128, name: &str) -> Node {
    let mut node = Node::new();
    node.self_id = id(n);
    node.function_id = id(100 + n);
    node.name = name.to_string();
    node.behavior = NodeBehavior::Passive;
    node
}

fn test_graph() -> Graph {
    let mut graph = Graph::new();
    let mut val1 = node(1, "val1");
    val1.outputs.push(output("value"));
    graph.add_node(val1);
    let mut val2 = node(2, "val2");
    val2.outputs.push(output("value"));
    graph.add_node(val2);
    let mut sum = node(3, "sum");
    sum.inputs.push(input("a", 1));
    sum.inputs.push(input("b", 2));
    sum.outputs.push(output("result"));
    graph.add_node(sum);
    let mut mult = node(4, "mult");
    mult.inputs.push(input("a", 3));
    mult.inputs.push(input("b", 2));
    mult.outputs.push(output("result"));
    graph.add_node(mult);
    let mut print = node(5, "print");
    print.is_output = true;
    print.inputs.push(input("value", 4));
    graph.add_node(print);
    assert!(graph.validate().is_ok());
    graph
}

fn number_of(value: &Value) -> i64 {
    match value {
        Value::Int(number) => *number,
        _ => panic!("an integer was expected"),
    }
}

/// Computes as the names say; the function `failing` fails as `fatal` says,
/// and the function `cancelling` sets the flag when it has run.
struct Scripted<'a> {
    failing: Option<u128>,
    fatal: bool,
    cancelling: Option<u128>,
    cancel: &'a AtomicBool,
    calls: RefCell<Vec<u128>>,
    captured: Cell<i64>,
    short: Option<u128>,
}

impl<'a> Scripted<'a> {
    fn new(cancel: &'a AtomicBool) -> Scripted<'a> {
        Scripted {
            failing: None,
            fatal: false,
            cancelling: None,
            cancel,
            calls: RefCell::new(Vec::new()),
            captured: Cell::new(0),
            short: None,
        }
    }
}

impl<'a> Invoker for Scripted<'a> {
    fn all_functions(&self) -> Vec<FunctionId> {
        vec![id(101), id(102), id(103), id(104), id(105)]
    }

    fn invoke(
        &self,
        function_id: FunctionId,
        ctx: &mut InvokeContext,
        inputs: &InvokeArgs,
        outputs: &mut InvokeArgs,
    ) -> Result<(), InvokeError> {
        let function = function_id.as_u128();
        self.calls.borrow_mut().push(function);
        let count = match ctx.values.first() {
            Some(Value::Int(count)) => *count,
            _ => 0,
        };
        ctx.values = vec![Value::Int(count + 1)];
        if self.failing == Some(function) {
            return Err(if self.fatal {
                InvokeError::Fatal("stop".to_string())
            } else {
                InvokeError::Recoverable("skip".to_string())
            });
        }
        if self.short == Some(function) {
            outputs.clear();
            return Ok(());
        }
        match function {
            101 => outputs[0] = Value::Int(2),
            102 => outputs[0] = Value::Int(5),
            103 => outputs[0] = Value::Int(number_of(&inputs[0]) + number_of(&inputs[1])),
            104 => outputs[0] = Value::Int(number_of(&inputs[0]) * number_of(&inputs[1])),
            105 => self.captured.set(number_of(&inputs[0])),
            _ => return Err(InvokeError::Fatal("unknown function".to_string())),
        }
        if self.cancelling == Some(function) {
            self.cancel.store(true, Ordering::SeqCst);
        }
        Ok(())
    }
}

fn fresh_plan(graph: &Graph) -> RuntimeGraph {
    Preprocess::default().run(graph, &mut RuntimeGraph::new())
}

fn flags(runtime_graph: &RuntimeGraph, name: &str) -> (bool, bool, bool) {
    let r_node = runtime_graph.node_by_name(name).unwrap();
    (r_node.should_execute, r_node.has_outputs, r_node.has_missing_inputs)
}

#[test]
fn every_planned_node_runs_in_order() {
    let graph = test_graph();
    let cancel = AtomicBool::new(false);
    let invoker = Scripted::new(&cancel);
    let mut runtime_graph = fresh_plan(&graph);

    let ended = Compute::default().run(&graph, &invoker, &mut runtime_graph, &cancel);
    assert!(matches!(ended, Ok(Completion::Finished)));
    assert_eq!(*invoker.calls.borrow(), vec![101, 102, 103, 104, 105]);
    assert_eq!(invoker.captured.get(), 35);
    for name in ["val1", "val2", "sum", "mult", "print"] {
        assert_eq!(flags(&runtime_graph, name), (true, true, false));
    }
    assert_eq!(number_of(&runtime_graph.node_by_name("mult").unwrap().output_values[0]), 35);
    assert!(runtime_graph.node_by_name("print").unwrap().output_values.is_empty());
}

#[test]
fn a_recoverable_failure_spreads_downstream() {
    let graph = test_graph();
    let cancel = AtomicBool::new(false);
    let mut invoker = Scripted::new(&cancel);
    invoker.failing = Some(103);
    let mut runtime_graph = fresh_plan(&graph);

    let ended = Compute::default().run(&graph, &invoker, &mut runtime_graph, &cancel);
    assert!(matches!(ended, Ok(Completion::Finished)));
    assert_eq!(*invoker.calls.borrow(), vec![101, 102, 103]);
    assert_eq!(flags(&runtime_graph, "val1"), (true, true, false));
    assert_eq!(flags(&runtime_graph, "val2"), (true, true, false));
    assert_eq!(flags(&runtime_graph, "sum"), (false, false, true));
    assert_eq!(flags(&runtime_graph, "mult"), (false, false, true));
    assert_eq!(flags(&runtime_graph, "print"), (false, false, true));
    // The error stays with the node whose function gave it.
    assert!(matches!(
        &runtime_graph.node_by_name("sum").unwrap().failure,
        Some(InvokeError::Recoverable(text)) if text == "skip"
    ));
    assert!(runtime_graph.node_by_name("mult").unwrap().failure.is_none());
    assert!(runtime_graph.node_by_name("val1").unwrap().failure.is_none());

    // The next cycle runs what did not run.
    invoker.failing = None;
    invoker.calls.borrow_mut().clear();
    let mut runtime_graph = Preprocess::default().run(&graph, &mut runtime_graph);
    let ended = Compute::default().run(&graph, &invoker, &mut runtime_graph, &cancel);
    assert!(matches!(ended, Ok(Completion::Finished)));
    assert_eq!(*invoker.calls.borrow(), vec![103, 104, 105]);
    assert_eq!(invoker.captured.get(), 35);
    assert!(runtime_graph.nodes.iter().all(|r_node| r_node.failure.is_none()));
}

#[test]
fn a_fatal_failure_ends_the_cycle() {
    let graph = test_graph();
    let cancel = AtomicBool::new(false);
    let mut invoker = Scripted::new(&cancel);
    invoker.failing = Some(103);
    invoker.fatal = true;
    let mut runtime_graph = fresh_plan(&graph);

    let ended = Compute::default().run(&graph, &invoker, &mut runtime_graph, &cancel);
    assert!(matches!(ended, Err(InvokeError::Fatal(_))));
    assert_eq!(*invoker.calls.borrow(), vec![101, 102, 103]);
    assert_eq!(flags(&runtime_graph, "val2"), (true, true, false));
    assert_eq!(flags(&runtime_graph, "sum"), (false, false, false));
    assert_eq!(flags(&runtime_graph, "mult"), (false, false, false));
    assert_eq!(flags(&runtime_graph, "print"), (false, false, false));
    assert_eq!(runtime_graph.nodes.len(), 5);
    // Only the nodes whose function was called have a context.
    let owners: Vec<Id> = runtime_graph.contexts.iter().map(|context| context.node_id).collect();
    assert_eq!(owners, vec![id(1), id(2), id(3)]);
}

#[test]
fn a_set_flag_cancels_before_the_first_node() {
    let graph = test_graph();
    let cancel = AtomicBool::new(true);
    let invoker = Scripted::new(&cancel);
    let mut runtime_graph = fresh_plan(&graph);

    let ended = Compute::default().run(&graph, &invoker, &mut runtime_graph, &cancel);
    assert!(matches!(ended, Ok(Completion::Cancelled)));
    assert!(invoker.calls.borrow().is_empty());
    for name in ["val1", "val2", "sum", "mult", "print"] {
        assert_eq!(flags(&runtime_graph, name), (false, false, false));
    }
}

#[test]
fn a_flag_set_on_the_way_cancels_the_rest() {
    let graph = test_graph();
    let cancel = AtomicBool::new(false);
    let mut invoker = Scripted::new(&cancel);
    invoker.cancelling = Some(102);
    let mut runtime_graph = fresh_plan(&graph);

    let ended = Compute::default().run(&graph, &invoker, &mut runtime_graph, &cancel);
    assert!(matches!(ended, Ok(Completion::Cancelled)));
    assert_eq!(*invoker.calls.borrow(), vec![101, 102]);
    assert_eq!(flags(&runtime_graph, "val2"), (true, true, false));
    assert_eq!(flags(&runtime_graph, "sum"), (false, false, false));
    assert_eq!(flags(&runtime_graph, "print"), (false, false, false));
}

#[test]
fn a_function_that_returns_too_few_values_has_failed() {
    let graph = test_graph();
    let cancel = AtomicBool::new(false);
    let mut invoker = Scripted::new(&cancel);
    invoker.short = Some(102);
    let mut runtime_graph = fresh_plan(&graph);

    let ended = Compute::default().run(&graph, &invoker, &mut runtime_graph, &cancel);
    assert!(matches!(ended, Ok(Completion::Finished)));
    assert_eq!(*invoker.calls.borrow(), vec![101, 102]);
    assert_eq!(flags(&runtime_graph, "val1"), (true, true, false));
    assert_eq!(flags(&runtime_graph, "val2"), (false, false, true));
    assert_eq!(flags(&runtime_graph, "sum"), (false, false, true));
}

#[test]
fn nodes_with_missing_inputs_are_passed_over() {
    let mut graph = test_graph();
    graph.node_by_name_mut("sum").unwrap().inputs[0].binding = None;
    let cancel = AtomicBool::new(false);
    let invoker = Scripted::new(&cancel);
    let mut runtime_graph = fresh_plan(&graph);

    let ended = Compute::default().run(&graph, &invoker, &mut runtime_graph, &cancel);
    assert!(matches!(ended, Ok(Completion::Finished)));
    assert_eq!(*invoker.calls.borrow(), vec![102]);
    assert_eq!(flags(&runtime_graph, "val2"), (true, true, false));
    assert_eq!(flags(&runtime_graph, "sum"), (false, false, true));
    assert_eq!(flags(&runtime_graph, "print"), (false, false, true));
}

#[test]
fn an_entry_whose_node_is_gone_counts_as_failed() {
    let mut graph = test_graph();
    let cancel = AtomicBool::new(false);
    let invoker = Scripted::new(&cancel);
    let mut runtime_graph = fresh_plan(&graph);
    graph.remove_node_by_id(id(1));

    let ended = Compute::default().run(&graph, &invoker, &mut runtime_graph, &cancel);
    assert!(matches!(ended, Ok(Completion::Finished)));
    assert_eq!(*invoker.calls.borrow(), vec![102]);
    assert_eq!(flags(&runtime_graph, "val1"), (false, false, true));
    assert_eq!(flags(&runtime_graph, "val2"), (true, true, false));
    // sum lost its binding with the node: a required input is open.
    assert_eq!(flags(&runtime_graph, "sum"), (false, false, true));
    assert_eq!(flags(&runtime_graph, "print"), (false, false, true));
    assert_eq!(runtime_graph.nodes.len(), 5);
}

#[test]
fn the_context_of_a_node_outlives_the_cycle() {
    let mut graph = test_graph();
    graph.node_by_name_mut("val1").unwrap().behavior = NodeBehavior::Active;
    let cancel = AtomicBool::new(false);
    let invoker = Scripted::new(&cancel);
    let mut runtime_graph = fresh_plan(&graph);
    for _ in 0..3 {
        let ended = Compute::default().run(&graph, &invoker, &mut runtime_graph, &cancel);
        assert!(matches!(ended, Ok(Completion::Finished)));
        runtime_graph = Preprocess::default().run(&graph, &mut runtime_graph);
    }
    assert_eq!(calls_of(&runtime_graph, 1), 3);
    assert_eq!(calls_of(&runtime_graph, 2), 1);
    assert_eq!(calls_of(&runtime_graph, 5), 3);
    assert_eq!(runtime_graph.contexts.len(), 5);

    // A node that no sink reaches for a while keeps its context.
    graph.node_by_name_mut("sum").unwrap().inputs[0].binding = None;
    graph.node_by_name_mut("sum").unwrap().inputs[0].is_required = false;
    runtime_graph = Preprocess::default().run(&graph, &mut runtime_graph);
    assert!(runtime_graph.node_by_name("val1").is_none());
    assert_eq!(calls_of(&runtime_graph, 1), 3);

    // A node that leaves the graph takes its context with it.
    graph.remove_node_by_id(id(1));
    runtime_graph = Preprocess::default().run(&graph, &mut runtime_graph);
    assert_eq!(calls_of(&runtime_graph, 1), 0);
    assert_eq!(runtime_graph.contexts.len(), 4);
    assert!(runtime_graph.contexts.iter().all(|context| context.node_id != id(1)));
}

fn calls_of(runtime_graph: &RuntimeGraph, n: u128) -> i64 {
    let context = runtime_graph.contexts.iter().find(|context| context.node_id == id(n));
    match context.and_then(|context| context.context.values.first()) {
        Some(Value::Int(count)) => *count,
        _ => 0,
    }
}

#[test]
fn an_open_optional_input_receives_null() {
    let mut graph = test_graph();
    graph.node_by_name_mut("sum").unwrap().inputs.push(Input {
        name: "extra".to_string(),
        data_type: DataType::Int,
        is_required: false,
        binding: None,
    });
    let cancel = AtomicBool::new(false);
    let invoker = Scripted::new(&cancel);
    let mut runtime_graph = fresh_plan(&graph);
    let ended = Compute::default().run(&graph, &invoker, &mut runtime_graph, &cancel);
    assert!(matches!(ended, Ok(Completion::Finished)));

    let sum = graph.node_by_name("sum").unwrap();
    let values = gather_inputs(sum, &runtime_graph.nodes).unwrap();
    assert_eq!(values.len(), 3);
    assert_eq!(number_of(&values[0]), 2);
    assert_eq!(number_of(&values[1]), 5);
    assert!(matches!(values[2], Value::Null));
    assert!(!is_cut_off(sum, &runtime_graph.nodes));
}

#[test]
fn inputs_without_a_cached_value_cannot_be_gathered() {
    let graph = test_graph();
    let runtime_graph = fresh_plan(&graph);
    let sum = graph.node_by_name("sum").unwrap();
    assert!(gather_inputs(sum, &runtime_graph.nodes).is_none());
    assert!(gather_inputs(graph.node_by_name("val1").unwrap(), &runtime_graph.nodes)
        .unwrap()
        .is_empty());
    let empty = RuntimeGraph::new();
    assert!(is_cut_off(sum, &empty.nodes));
}

#[test]
fn returned_values_fill_the_first_slots() {
    let mut outputs = vec![Value::Null, Value::Int(9), Value::Bool(true)];
    let stored = store_outputs(&vec![Value::Int(1), Value::Text("two".to_string())], &mut outputs);
    assert!(stored.is_ok());
    assert_eq!(number_of(&outputs[0]), 1);
    assert!(matches!(&outputs[1], Value::Text(text) if text == "two"));
    assert!(matches!(outputs[2], Value::Bool(true)));

    let mut outputs = vec![Value::Null];
    let stored = store_outputs(&vec![Value::Int(1), Value::Int(2)], &mut outputs);
    assert!(matches!(stored, Err(InvokeError::Recoverable(_))));
    assert!(matches!(outputs[0], Value::Null));
}

#[test]
fn values_carry_their_type() {
    assert_eq!(Value::Null.data_type(), DataType::Null);
    assert_eq!(Value::Bool(false).data_type(), DataType::Bool);
    assert_eq!(Value::Int(-3).data_type(), DataType::Int);
    assert_eq!(Value::Float(0).data_type(), DataType::Float);
    assert_eq!(Value::Text(String::new()).data_type(), DataType::Text);
    assert!(matches!(Value::Text("copy".to_string()).duplicate(), Value::Text(text) if text == "copy"));
    assert!(matches!(Value::Int(7).duplicate(), Value::Int(7)));
    assert_eq!(BindingBehavior::default(), BindingBehavior::Always);
}

fn entry_to_run() -> RuntimeNode {
    RuntimeNode {
        node_id: id(3),
        name: "sum".to_string(),
        behavior: NodeBehavior::Passive,
        is_output: false,
        should_execute: true,
        has_outputs: true,
        has_missing_inputs: false,
        edge_behavior: BindingBehavior::Always,
        total_binding_count: 1,
        output_values: vec![Value::Int(1)],
        failure: None,
    }
}

#[test]
fn a_call_that_fills_every_output_completes_the_entry() {
    let mut entry = entry_to_run();
    let fatal = settle(&mut entry, 2, Ok(()), vec![Value::Int(7), Value::Bool(true)]);
    assert!(fatal.is_none());
    assert!(entry.should_execute && entry.has_outputs && !entry.has_missing_inputs);
    assert_eq!(entry.output_values.len(), 2);
    assert_eq!(number_of(&entry.output_values[0]), 7);
    assert!(entry.failure.is_none());
    assert_eq!(entry.node_id, id(3));
}

#[test]
fn a_call_that_fills_another_number_of_outputs_has_failed() {
    let mut entry = entry_to_run();
    let fatal = settle(&mut entry, 2, Ok(()), vec![Value::Int(7)]);
    assert!(fatal.is_none());
    assert!(!entry.should_execute && !entry.has_outputs && entry.has_missing_inputs);
    assert!(entry.output_values.is_empty());
    assert!(entry.failure.is_none());
}

#[test]
fn a_recoverable_error_stays_with_the_entry() {
    let mut entry = entry_to_run();
    let error = InvokeError::Recoverable("no file".to_string());
    let fatal = settle(&mut entry, 1, Err(error), vec![Value::Int(7)]);
    assert!(fatal.is_none());
    assert!(!entry.should_execute && !entry.has_outputs && entry.has_missing_inputs);
    assert!(entry.output_values.is_empty());
    assert!(matches!(&entry.failure, Some(InvokeError::Recoverable(text)) if text == "no file"));
}

#[test]
fn a_fatal_error_is_handed_on() {
    let mut entry = entry_to_run();
    let error = InvokeError::Fatal("no device".to_string());
    let fatal = settle(&mut entry, 1, Err(error), vec![Value::Int(7)]);
    assert!(matches!(fatal, Some(InvokeError::Fatal(text)) if text == "no device"));
    assert!(!entry.should_execute && !entry.has_outputs && !entry.has_missing_inputs);
    assert!(entry.output_values.is_empty());
    assert!(entry.failure.is_none());
}

#[test]
fn a_plan_without_entries_finishes_without_a_call() {
    let graph = test_graph();
    let cancel = AtomicBool::new(true);
    let invoker = Scripted::new(&cancel);
    let mut runtime_graph = RuntimeGraph::new();
    let ended = Compute::default().run(&graph, &invoker, &mut runtime_graph, &cancel);
    assert!(matches!(ended, Ok(Completion::Finished)));
    assert!(invoker.calls.borrow().is_empty());
    assert!(runtime_graph.nodes.is_empty() && runtime_graph.contexts.is_empty());
}

#[test]
fn entries_that_ran_hold_one_value_for_every_output() {
    let graph = test_graph();
    let cancel = AtomicBool::new(false);
    let invoker = Scripted::new(&cancel);
    let mut runtime_graph = fresh_plan(&graph);
    let ended = Compute::default().run(&graph, &invoker, &mut runtime_graph, &cancel);
    assert!(matches!(ended, Ok(Completion::Finished)));
    for r_node in runtime_graph.nodes.iter() {
        let node = graph.node_by_id(r_node.node_id).unwrap();
        assert!(r_node.should_execute);
        assert_eq!(r_node.output_values.len(), node.outputs.len());
    }
}
