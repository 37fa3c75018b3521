use graph::builder::create_graph;
use graph::builder::create_graph_with;
use graph::builder::probe_fault;
use graph::builder::ScriptError;
use graph::data_type::DataType;
use graph::graph::BindingBehavior;
use graph::graph::NodeBehavior;
use graph::ident::Id;
use graph::renderer::aligned_size_of_uniform;
use graph::renderer::Renderer;
use graph::script::output_offsets;
use graph::script::record_call;
use graph::script::render;
use graph::script::Argument;
use graph::script::Cache;
use graph::script::FuncConnections;
use graph::script::FunctionInfo;
use graph::script::ScriptValue;
use graph::validate::ValidationError;

fn pair(name: &str, data_type: &str) -> (String, String) {
    (name.to_string(), data_type.to_string())
}

fn function(name: &str, inputs: usize, outputs: usize) -> FunctionInfo {
    let inputs: Vec<(String, String)> = (0..inputs).map(|i| pair(&format!("in{}", i), "int")).collect();
    let outputs: Vec<(String, String)> =
        (0..outputs).map(|i| pair(&format!("out{}", i), "int")).collect();
    FunctionInfo::from_parts(name.to_string(), &inputs, &outputs).unwrap()
}

fn functions() -> Vec<FunctionInfo> {
    vec![function("val", 0, 1), function("sum", 2, 1), function("split", 1, 2), function("print", 1, 0)]
}

fn call(name: &str, inputs: Vec<u32>, outputs: Vec<u32>) -> FuncConnections {
    FuncConnections { name: name.to_string(), inputs, outputs }
}

fn ids(count: u128) -> Vec<Id> {
    (1..=count).map(Id::from_u128).collect()
}

#[test]
fn function_info_reads_names_and_types() {
    let info = FunctionInfo::from_parts(
        "mix".to_string(),
        &vec![pair("a", "int"), pair("b", "float"), pair("c", "string")],
        &vec![pair("r", "bool")],
    )
    .unwrap();
    assert_eq!(info.name(), "mix");
    assert_eq!(info.inputs().len(), 3);
    assert_eq!(info.inputs()[0].name, "a");
    assert_eq!(info.inputs()[0].data_type, DataType::Int);
    assert_eq!(info.inputs()[1].data_type, DataType::Float);
    assert_eq!(info.inputs()[2].data_type, DataType::Text);
    assert_eq!(info.inputs()[2].index, 0);
    assert_eq!(info.outputs().len(), 1);
    assert_eq!(info.outputs()[0].name, "r");
    assert_eq!(info.outputs()[0].data_type, DataType::Bool);

    assert!(FunctionInfo::from_parts("bad".to_string(), &vec![pair("a", "integer")], &vec![]).is_none());
    assert!(FunctionInfo::from_parts("bad".to_string(), &vec![], &vec![pair("r", "")]).is_none());
    let argument = Argument { name: "x".to_string(), data_type: DataType::Int, index: 4 };
    assert_eq!(argument.index, 4);
}

#[test]
fn printed_values_become_one_line() {
    let mut cache = Cache::new();
    assert!(cache.output_stream.is_empty());
    cache.print(&vec![
        ScriptValue::Text("n=".to_string()),
        ScriptValue::Integer(-12),
        ScriptValue::Nil,
        ScriptValue::Boolean(true),
        ScriptValue::Boolean(false),
    ]);
    cache.print(&vec![]);
    cache.print(&vec![
        ScriptValue::Number("1.5".to_string()),
        ScriptValue::Table,
        ScriptValue::Function,
        ScriptValue::Thread,
        ScriptValue::UserData,
        ScriptValue::LightUserData,
        ScriptValue::Error("oops".to_string()),
        ScriptValue::Integer(i64::MIN),
        ScriptValue::Integer(0),
    ]);
    assert_eq!(cache.output_stream.len(), 3);
    assert_eq!(cache.output_stream[0], "n=-12Niltruefalse");
    assert_eq!(cache.output_stream[1], "");
    assert_eq!(
        cache.output_stream[2],
        "1.5TableFunctionThreadUserDataLightUserDataoops-92233720368547758080"
    );

    let text = cache.get_output();
    assert_eq!(
        text,
        "n=-12Niltruefalse\n\n1.5TableFunctionThreadUserDataLightUserDataoops-92233720368547758080"
    );
    assert!(cache.output_stream.is_empty());
    assert_eq!(cache.get_output(), "");
    cache.print(&vec![ScriptValue::Integer(7)]);
    assert_eq!(cache.get_output(), "7");
}

#[test]
fn rendering_appends_to_the_text() {
    let mut text = "x: ".to_string();
    render(&mut text, &ScriptValue::Integer(42));
    render(&mut text, &ScriptValue::Text("!".to_string()));
    assert_eq!(text, "x: 42!");
}

#[test]
fn a_traced_call_records_its_connections() {
    let info = function("split", 1, 2);
    let (connection, handed) = record_call(
        &info,
        10,
        &vec![
            ScriptValue::Integer(3),
            ScriptValue::Text("skipped".to_string()),
            ScriptValue::Integer(5),
            ScriptValue::Integer(-1),
            ScriptValue::Integer(1 << 32),
            ScriptValue::Nil,
        ],
    );
    assert_eq!(connection.name, "split");
    // The arguments are taken from the last to the first.
    assert_eq!(connection.inputs, vec![5, 3]);
    assert_eq!(connection.outputs, vec![10, 11]);
    assert_eq!(handed, vec![10, 11]);

    let (connection, handed) = record_call(&function("print", 1, 0), 0, &vec![]);
    assert!(connection.inputs.is_empty() && connection.outputs.is_empty() && handed.is_empty());
    let (connection, _) = record_call(&function("val", 0, 1), u32::MAX - 1, &vec![]);
    assert_eq!(connection.outputs, vec![u32::MAX - 1]);
}

#[test]
fn functions_number_their_outputs_one_after_the_other() {
    assert_eq!(output_offsets(&functions()), Some(vec![0, 1, 2, 4]));
    assert_eq!(output_offsets(&vec![]), Some(vec![]));
}

#[test]
fn calls_become_a_graph() {
    let calls = vec![
        call("val", vec![], vec![0]),
        call("split", vec![0], vec![1, 2]),
        call("sum", vec![1, 2], vec![3]),
        call("print", vec![3], vec![]),
    ];
    assert_eq!(probe_fault(&functions(), &calls), None);
    let graph = create_graph_with(&functions(), &calls, &ids(4)).unwrap();
    assert_eq!(graph.validate(), Ok(()));
    assert!(graph.subgraphs().is_empty());
    let nodes = graph.nodes();
    assert_eq!(nodes.len(), 4);
    let names: Vec<&str> = nodes.iter().map(|node| node.name.as_str()).collect();
    assert_eq!(names, vec!["val", "split", "sum", "print"]);
    for (k, node) in nodes.iter().enumerate() {
        assert_eq!(node.id(), Id::from_u128(k as u128 + 1));
        assert!(node.function_id.is_nil());
        assert_eq!(node.behavior, NodeBehavior::Active);
        assert!(!node.is_output);
        assert!(node.subgraph_id.is_none());
    }
    let sum = &nodes[2];
    assert_eq!(sum.inputs.len(), 2);
    assert_eq!(sum.outputs.len(), 1);
    assert_eq!(sum.inputs[0].name, "in0");
    assert_eq!(sum.inputs[1].data_type, DataType::Int);
    assert!(sum.inputs[0].is_required);
    let first = sum.inputs[0].binding.unwrap();
    assert_eq!((first.output_node_id(), first.output_index()), (Id::from_u128(2), 0));
    assert_eq!(first.behavior, BindingBehavior::Always);
    let second = sum.inputs[1].binding.unwrap();
    assert_eq!((second.output_node_id(), second.output_index()), (Id::from_u128(2), 1));
    assert_eq!(sum.outputs[0].name, "out0");
    let print = &nodes[3];
    assert_eq!(print.inputs[0].binding.unwrap().output_node_id(), Id::from_u128(3));
    assert!(print.outputs.is_empty());
}

#[test]
fn an_input_is_bound_to_the_call_that_last_handed_out_its_number() {
    let calls = vec![
        call("val", vec![], vec![0]),
        call("val", vec![], vec![0]),
        call("print", vec![0], vec![]),
    ];
    let graph = create_graph_with(&functions(), &calls, &ids(3)).unwrap();
    assert_eq!(graph.nodes()[2].inputs[0].binding.unwrap().output_node_id(), Id::from_u128(2));
}

#[test]
fn a_call_may_use_fewer_ports_than_its_function_declares() {
    let calls = vec![call("val", vec![], vec![0]), call("sum", vec![0], vec![])];
    let graph = create_graph_with(&functions(), &calls, &ids(2)).unwrap();
    assert_eq!(graph.nodes()[1].inputs.len(), 1);
    assert!(graph.nodes()[1].outputs.is_empty());
}

#[test]
fn faults_of_a_script_are_reported_in_order() {
    let unknown = vec![call("val", vec![], vec![0]), call("nothing", vec![9], vec![])];
    assert_eq!(create_graph_with(&functions(), &unknown, &ids(2)).err(), Some(ScriptError::UnknownFunction));
    assert_eq!(probe_fault(&functions(), &unknown), Some(ScriptError::UnknownFunction));

    let inputs = vec![call("val", vec![], vec![0]), call("print", vec![0, 0], vec![])];
    assert_eq!(create_graph_with(&functions(), &inputs, &ids(2)).err(), Some(ScriptError::TooManyInputs));

    let outputs = vec![call("print", vec![7], vec![0]), call("nothing", vec![], vec![])];
    assert_eq!(create_graph_with(&functions(), &outputs, &ids(2)).err(), Some(ScriptError::TooManyOutputs));

    let dangling = vec![call("val", vec![], vec![0]), call("print", vec![1], vec![])];
    assert_eq!(create_graph_with(&functions(), &dangling, &ids(2)).err(), Some(ScriptError::UnknownOutput));
    assert_eq!(create_graph(&functions(), &dangling).err(), Some(ScriptError::UnknownOutput));
}

#[test]
fn a_graph_that_is_not_valid_is_not_handed_out() {
    // sum takes its own output.
    let looped = vec![call("val", vec![], vec![0]), call("sum", vec![0, 1], vec![1])];
    assert_eq!(
        create_graph_with(&functions(), &looped, &ids(2)).err(),
        Some(ScriptError::Invalid(ValidationError::Cycle))
    );
    let calls = vec![call("val", vec![], vec![0])];
    assert_eq!(
        create_graph_with(&functions(), &calls, &vec![Id::nil()]).err(),
        Some(ScriptError::Invalid(ValidationError::NilNodeId))
    );
    let typed = vec![
        FunctionInfo::from_parts("text".to_string(), &vec![], &vec![pair("t", "string")]).unwrap(),
        function("print", 1, 0),
    ];
    let mismatch = vec![call("text", vec![], vec![0]), call("print", vec![0], vec![])];
    assert_eq!(
        create_graph_with(&typed, &mismatch, &ids(2)).err(),
        Some(ScriptError::Invalid(ValidationError::BindingTypeMismatch))
    );
}

#[test]
fn identifiers_that_repeat_are_a_clash() {
    let calls = vec![
        call("val", vec![], vec![0]),
        call("val", vec![], vec![1]),
        call("sum", vec![0, 1], vec![2]),
    ];
    let repeated = vec![Id::from_u128(1), Id::from_u128(2), Id::from_u128(1)];
    assert_eq!(
        create_graph_with(&functions(), &calls, &repeated).err(),
        Some(ScriptError::IdClash)
    );
    // A fault of the script comes before the clash.
    let dangling = vec![
        call("val", vec![], vec![0]),
        call("val", vec![], vec![1]),
        call("sum", vec![0, 5], vec![2]),
    ];
    assert_eq!(
        create_graph_with(&functions(), &dangling, &repeated).err(),
        Some(ScriptError::UnknownOutput)
    );
    // Without calls there is nothing to clash and nothing to fault.
    let empty = create_graph_with(&functions(), &vec![], &vec![]).unwrap();
    assert!(empty.nodes().is_empty() && empty.subgraphs().is_empty());
    let one = create_graph(&functions(), &vec![call("val", vec![], vec![0])]).unwrap();
    assert_eq!(one.nodes().len(), 1);
}

#[test]
fn fresh_identifiers_make_the_same_graph() {
    let calls = vec![
        call("val", vec![], vec![0]),
        call("val", vec![], vec![1]),
        call("sum", vec![1, 0], vec![2]),
        call("print", vec![2], vec![]),
    ];
    let graph = create_graph(&functions(), &calls).unwrap();
    let nodes = graph.nodes();
    assert_eq!(nodes.len(), 4);
    assert!(nodes.iter().all(|node| !node.id().is_nil()));
    assert_eq!(nodes[2].inputs[0].binding.unwrap().output_node_id(), nodes[1].id());
    assert_eq!(nodes[2].inputs[1].binding.unwrap().output_node_id(), nodes[0].id());
    assert_eq!(nodes[3].inputs[0].binding.unwrap().output_node_id(), nodes[2].id());
    assert_eq!(graph.validate(), Ok(()));
    assert!(create_graph(&functions(), &vec![]).unwrap().nodes().is_empty());
}

struct Plain {}

impl Renderer for Plain {
    fn background(&self) {}
}

#[test]
fn uniforms_are_padded_to_the_alignment() {
    assert_eq!(aligned_size_of_uniform::<()>(), 0);
    assert_eq!(aligned_size_of_uniform::<u8>(), 256);
    assert_eq!(aligned_size_of_uniform::<[u8; 64]>(), 256);
    assert_eq!(aligned_size_of_uniform::<[u8; 256]>(), 256);
    assert_eq!(aligned_size_of_uniform::<[u8; 257]>(), 512);
    assert_eq!(aligned_size_of_uniform::<[f32; 16]>(), 256);
    assert_eq!(aligned_size_of_uniform::<[u64; 100]>(), 1024);
    Plain {}.background();
}
