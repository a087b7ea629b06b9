use solstice::debugger::artifact::{artifact_contract_name, contract_units, try_contract_units};
use solstice::debugger::ast::{AstNode, AstSource, Attr, NodeType};
use solstice::debugger::context::{retrieve_types, TraceContext};
use solstice::debugger::dump::{ArtifactError, DebugNodeArtifact, Source, Sources};
use solstice::debugger::tracer::VariableLocation;
use solstice::debugger::units::BytecodeMap;

const SOURCE: &str = "contract Base {}\ncontract C is Base {\n    uint256 total;\n    function f() public {}\n}\n";

fn node(id: usize, node_type: NodeType, start: usize, length: usize, other: Vec<(&str, Attr)>) -> AstNode {
    AstNode {
        id: Some(id),
        node_type,
        src: AstSource { start, length: Some(length), index: Some(0) },
        nodes: vec![],
        body: None,
        other: other.into_iter().map(|(k, v)| (k.to_string(), v)).collect(),
    }
}

fn text(s: &str) -> Attr {
    Attr::Str(s.to_string())
}

fn state_variable(id: usize) -> AstNode {
    node(
        id,
        NodeType::VariableDeclaration,
        42,
        13,
        vec![
            ("name", text("total")),
            ("typeName", Attr::Node(Box::new(node(90, NodeType::Other("ElementaryTypeName".to_string()), 42, 7, vec![])))),
            ("constant", Attr::Bool(false)),
            ("storageLocation", text("default")),
        ],
    )
}

fn contract(id: usize, name: &str, start: usize, length: usize, bases: Vec<i64>, members: Vec<AstNode>) -> AstNode {
    let mut c = node(
        id,
        NodeType::ContractDefinition,
        start,
        length,
        vec![("name", text(name)), ("linearizedBaseContracts", Attr::Ints(bases))],
    );
    c.nodes = members;
    c
}

fn function_f() -> AstNode {
    let mut f = node(
        20,
        NodeType::FunctionDefinition,
        61,
        22,
        vec![
            ("kind", text("function")),
            ("name", text("f")),
            ("parameters", Attr::Node(Box::new(node(21, NodeType::ParameterList, 71, 2, vec![("parameters", Attr::Nodes(vec![]))])))),
        ],
    );
    f.body = Some(Box::new(node(22, NodeType::Block, 81, 2, vec![("statements", Attr::Nodes(vec![]))])));
    f
}

fn tree() -> Vec<AstNode> {
    vec![
        node(100, NodeType::Other("PragmaDirective".to_string()), 0, 0, vec![]),
        contract(1, "Base", 0, 16, vec![1], vec![]),
        contract(
            2,
            "C",
            17,
            68,
            vec![2, 1],
            vec![
                node(3, NodeType::StructDefinition, 0, 1, vec![]),
                state_variable(4),
                node(5, NodeType::EnumDefinition, 0, 1, vec![]),
                function_f(),
            ],
        ),
        node(6, NodeType::UserDefinedValueTypeDefinition, 0, 1, vec![]),
    ]
}

#[test]
fn types_of_a_tree_are_found_by_id() {
    let ctx = retrieve_types(&tree());
    let mut structs: Vec<usize> = ctx.structs.keys().copied().collect();
    structs.sort();
    assert_eq!(structs, vec![1, 2, 3, 5, 6]);
    assert!(matches!(ctx.structs[&3].node_type, NodeType::StructDefinition));
    assert_eq!(ctx.state_variables.len(), 1);
    let total = &ctx.state_variables[&4];
    assert_eq!(total.name, "total");
    assert_eq!(total.location, VariableLocation::Storage);
    assert!(total.state_variable);
    assert_eq!(ctx.contract_state_variables[&1], Vec::<usize>::new());
    assert_eq!(ctx.contract_state_variables[&2], vec![4]);
}

#[test]
fn a_tree_without_contracts_knows_only_its_types() {
    let ctx = retrieve_types(&vec![node(6, NodeType::EnumDefinition, 0, 1, vec![])]);
    assert_eq!(ctx.structs.len(), 1);
    assert!(ctx.state_variables.is_empty());
    assert!(ctx.contract_state_variables.is_empty());
}

#[test]
fn merge_keeps_both_and_prefers_the_other() {
    let mut a = TraceContext::new();
    a.contract_state_variables.insert(1, vec![10]);
    a.contract_state_variables.insert(2, vec![20]);
    let mut b = TraceContext::new();
    b.contract_state_variables.insert(2, vec![21, 22]);
    b.contract_state_variables.insert(3, vec![30]);
    a.merge(b);
    assert_eq!(a.contract_state_variables.len(), 3);
    assert_eq!(a.contract_state_variables[&1], vec![10]);
    assert_eq!(a.contract_state_variables[&2], vec![21, 22]);
    assert_eq!(a.contract_state_variables[&3], vec![30]);
}

#[test]
fn merge_with_an_empty_context_changes_nothing() {
    let mut a = retrieve_types(&tree());
    a.merge(TraceContext::new());
    assert_eq!(a.structs.len(), 5);
    assert_eq!(a.state_variables.len(), 1);
    assert_eq!(a.contract_state_variables.len(), 2);
}

#[test]
fn units_are_read_for_the_target_contract_only() {
    let nodes = tree();
    let ctx = retrieve_types(&nodes);
    let deployed = BytecodeMap::new(&[0x60, 0x01, 0x00], "17:68:0:-;17:68");
    let creation = BytecodeMap::new(&[0x00], "17:68:0:-");
    let units = contract_units(&nodes, "C", 7, &deployed, &creation, "src/C.sol", SOURCE, &ctx);
    assert_eq!(units.len(), 1);
    let u = &units[0];
    assert_eq!(u.contract_name, "C");
    assert_eq!(u.path, "src/C.sol");
    assert_eq!(u.source_id, 7);
    assert_eq!(u.linearized_base_contracts, vec![1, 2]);
    assert_eq!(u.state_variables, vec![4]);
    assert_eq!(u.location.line, 1);
    assert_eq!(u.location.column, 0);
    assert_eq!(u.location.start_offset, 17);
    assert_eq!(u.functions.len(), 1);
    assert_eq!(u.functions[0].name, "f");
    assert_eq!(u.deployed_bytecode.ic_pc_map.get(2), Some(1));
    assert_eq!(u.deployed_bytecode._pc_ic_map.get(2), Some(1));
    assert_eq!(u.deployed_bytecode.source_map.len(), 2);
    assert_eq!(u.bytecode.source_map.len(), 1);

    let bases = contract_units(&nodes, "Base", 7, &creation, &creation, "src/C.sol", SOURCE, &ctx);
    assert_eq!(bases.len(), 1);
    assert_eq!(bases[0].linearized_base_contracts, vec![1]);
    assert!(bases[0].state_variables.is_empty());
    assert!(contract_units(&nodes, "D", 7, &creation, &creation, "src/C.sol", SOURCE, &ctx).is_empty());
}

fn sources() -> Sources {
    Sources {
        sources_by_id: vec![
            ("0.8.20".to_string(), vec![(0, Source { path: "src/A.sol".to_string() }), (1, Source { path: "src/B.sol".to_string() })]),
            ("0.8.26".to_string(), vec![(1, Source { path: "lib/B.sol".to_string() }), (2, Source { path: "test/C.t.sol".to_string() })]),
        ],
        artifacts_by_name: vec![
            ("A".to_string(), vec![DebugNodeArtifact { file_id: 0 }]),
            ("B".to_string(), vec![DebugNodeArtifact { file_id: 1 }, DebugNodeArtifact { file_id: 3 }]),
        ],
    }
}

#[test]
fn the_first_file_with_the_id_gives_the_path() {
    let s = sources();
    assert_eq!(s.find_source_path(1), Some("src/B.sol".to_string()));
    assert_eq!(s.find_source_path(2), Some("test/C.t.sol".to_string()));
    assert_eq!(s.find_source_path(9), None);
}

#[test]
fn an_artifact_is_found_by_contract_name() {
    let s = sources();
    assert_eq!(s.artifact_file_id("A"), Ok(0));
    assert_eq!(s.artifact_file_id("B"), Err(ArtifactError::Multiple));
    assert_eq!(s.artifact_file_id("Z"), Err(ArtifactError::NotFound));
}

#[test]
fn an_artifact_is_named_after_its_contract() {
    assert_eq!(artifact_contract_name("Counter.json"), "Counter");
    assert_eq!(artifact_contract_name("out/Counter.sol/Counter.json"), "Counter");
    assert_eq!(artifact_contract_name("Counter.abi"), "");
    assert_eq!(artifact_contract_name("json"), "");
    assert_eq!(artifact_contract_name(".json"), "");
}

#[test]
fn merging_all_contexts_lets_later_ones_win() {
    let mut a = TraceContext::new();
    a.contract_state_variables.insert(1, vec![10]);
    let mut b = TraceContext::new();
    b.contract_state_variables.insert(1, vec![11]);
    b.contract_state_variables.insert(2, vec![20]);
    let all = TraceContext::merge_all(vec![a, b, retrieve_types(&tree())]);
    assert_eq!(all.contract_state_variables.len(), 2);
    assert_eq!(all.contract_state_variables[&1], Vec::<usize>::new());
    assert_eq!(all.contract_state_variables[&2], vec![4]);
    assert_eq!(all.structs.len(), 5);
    assert!(TraceContext::merge_all(vec![]).structs.is_empty());
}

#[test]
fn units_that_cannot_be_read_are_refused() {
    let nodes = tree();
    let ctx = retrieve_types(&nodes);
    let creation = BytecodeMap::new(&[0x00], "17:68:0:-");
    let read = try_contract_units(&nodes, "C", 7, &creation, &creation, "src/C.sol", SOURCE, &ctx).unwrap();
    let units = contract_units(&nodes, "C", 7, &creation, &creation, "src/C.sol", SOURCE, &ctx);
    assert_eq!(read.len(), units.len());
    assert_eq!(read[0].functions.len(), units[0].functions.len());
    assert_eq!(read[0].state_variables, units[0].state_variables);
    assert_eq!(read[0].location, units[0].location);

    let mut unknown_base = tree();
    unknown_base[2] = contract(2, "C", 17, 68, vec![2, 99], vec![function_f()]);
    assert!(try_contract_units(&unknown_base, "C", 7, &creation, &creation, "src/C.sol", SOURCE, &ctx).is_none());

    let mut nameless = tree();
    nameless[1].other.remove(0);
    assert!(try_contract_units(&nameless, "C", 7, &creation, &creation, "src/C.sol", SOURCE, &ctx).is_none());

    let mut far = tree();
    far[2].src.start = 5000;
    assert!(try_contract_units(&far, "C", 7, &creation, &creation, "src/C.sol", SOURCE, &ctx).is_none());
    assert!(try_contract_units(&far, "D", 7, &creation, &creation, "src/C.sol", SOURCE, &ctx).unwrap().is_empty());
}
