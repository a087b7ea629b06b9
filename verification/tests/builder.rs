use solstice::debugger::ast::{Attr, AstNode, AstSource, NodeType};
use solstice::debugger::builder::{
    build_trace, build_trace_checked, generate_steps, generate_steps_checked, unit_index_by_name, get_debug_unit_from_name, variable_definitions,
    Assignment, CallTraceStep, DebugNode, DebugNodeKind, StorageChange, TraceError, UnitLookupError,
};
use solstice::debugger::context::TraceContext;
use solstice::debugger::dump::{DebugNodeArtifact, Sources};
use solstice::debugger::metrics::{Action, MetricsRecorder};
use std::time::Duration;
use solstice::debugger::tracer::{
    FunctionCallKind, IcPcMap, PcIcMap, SourceLocation, StepKind, Variable, VariableLocation, CALL,
    REVERT,
};
use solstice::debugger::units::{
    source_element_matches, Block, BytecodeMap, DebugUnit, Function, FunctionKind, Instruction,
    InstructionKind, Jump, MatchResult, SourceElement, SourceLocationHelper,
};

fn line(l: usize) -> SourceLocation {
    let mut loc = SourceLocation::new();
    loc.line = l;
    loc
}

fn inst(kind: InstructionKind, start: usize, length: usize, l: usize) -> Instruction {
    Instruction {
        location: line(l),
        kind,
        loc: SourceLocationHelper { start, length },
    }
}

fn src(offset: u32, length: u32, index: i32, jump: Jump) -> SourceElement {
    SourceElement {
        offset,
        length,
        index,
        jump,
    }
}

fn param(id: u64) -> Variable {
    Variable {
        name: "amount".to_string(),
        id,
        state_variable: false,
        location: VariableLocation::Stack,
        is_constant: false,
        declared_type: AstNode {
            id: Some(1),
            node_type: NodeType::Other("ElementaryTypeName".to_string()),
            src: AstSource { start: 0, length: Some(7), index: Some(0) },
            nodes: vec![],
            body: None,
            other: vec![("name".to_string(), Attr::Str("uint256".to_string()))],
        },
    }
}

/// The compressed source map of six one-byte instructions: the function, a
/// declaration, a call, a nested statement, the function again (jumping out),
/// and nothing.
const SOURCE_MAP: &str = "50:200:0:i;100:10::-;120:8;150:5;50:200::o;0:0:-1:-";

/// The entries of `SOURCE_MAP`.
fn source_map() -> Vec<SourceElement> {
    vec![
        src(50, 200, 0, Jump::In),
        src(100, 10, 0, Jump::Regular),
        src(120, 8, 0, Jump::Regular),
        src(150, 5, 0, Jump::Regular),
        src(50, 200, 0, Jump::Out),
        src(0, 0, -1, Jump::Regular),
    ]
}

fn unit() -> DebugUnit {
    let code = vec![0x5bu8; 6];
    let nested = Block {
        variables: vec![],
        condition: Some(inst(InstructionKind::Statement, 140, 4, 8)),
        instructions: vec![inst(InstructionKind::Statement, 150, 5, 9)],
        scopes: vec![],
        location: line(8),
    };
    let root = Block {
        variables: vec![7],
        condition: None,
        instructions: vec![
            inst(InstructionKind::VariableDeclaration(7), 100, 10, 6),
            inst(InstructionKind::FunctionCall, 120, 8, 7),
        ],
        scopes: vec![nested],
        location: line(5),
    };
    DebugUnit {
        contract_name: "TestContract".to_string(),
        path: "test/T.t.sol".to_string(),
        location: line(3),
        functions: vec![Function {
            name: "test".to_string(),
            kind: FunctionKind::Function,
            root_block: root,
            parameters: vec![param(3)],
            loc: SourceLocationHelper {
                start: 50,
                length: 200,
            },
        }],
        state_variables: vec![1],
        variables: vec![],
        source_id: 0,
        linearized_base_contracts: vec![],
        bytecode: BytecodeMap::new(&code, SOURCE_MAP),
        deployed_bytecode: BytecodeMap::new(&code, SOURCE_MAP),
    }
}

fn step(pc: usize, op: u8, stack_len: usize, change: Option<(u8, u8)>) -> CallTraceStep {
    CallTraceStep {
        pc,
        op,
        contract: 1,
        memory: vec![0xaa],
        stack: vec![vec![0u8; 32]; stack_len],
        storage_change: change.map(|(k, v)| StorageChange {
            key: vec![k],
            value: vec![v],
        }),
    }
}

fn node(steps: Vec<CallTraceStep>) -> DebugNode {
    DebugNode {
        kind: DebugNodeKind::Call,
        address: 1,
        contract: "TestContract".to_string(),
        steps,
    }
}

#[test]
fn match_location_finds_functions_and_statements() {
    let u = unit();
    match u.match_location(&src(50, 200, 0, Jump::In)) {
        (Some(MatchResult::Function(f)), vars) => {
            assert_eq!(f.name, "test");
            assert_eq!(vars, vec![1, 3]);
        }
        _ => panic!("function not found"),
    }
    match u.match_location(&src(100, 10, 0, Jump::Regular)) {
        (Some(MatchResult::Instruction(i)), vars) => {
            assert_eq!(i.kind, InstructionKind::VariableDeclaration(7));
            assert_eq!(vars, vec![1, 3, 7]);
        }
        _ => panic!("declaration not found"),
    }
    match u.match_location(&src(140, 4, 0, Jump::Regular)) {
        (Some(MatchResult::Instruction(i)), vars) => {
            assert_eq!(i.location.line, 8);
            assert_eq!(vars, vec![1, 3, 7]);
        }
        _ => panic!("condition not found"),
    }
    match u.match_location(&src(150, 5, 0, Jump::Regular)) {
        (Some(MatchResult::Instruction(i)), vars) => {
            assert_eq!(i.location.line, 9);
            assert_eq!(vars, vec![1, 3, 7]);
        }
        _ => panic!("nested statement not found"),
    }
    let (none, vars) = u.match_location(&src(999, 1, 0, Jump::Regular));
    assert!(none.is_none());
    assert!(vars.is_empty());
}

#[test]
fn source_elements_match_on_range_and_file() {
    assert!(source_element_matches(
        &src(1, 2, 3, Jump::In),
        &src(1, 2, 3, Jump::Out)
    ));
    assert!(!source_element_matches(
        &src(1, 2, 3, Jump::In),
        &src(1, 2, 4, Jump::In)
    ));
    assert_eq!(src(1, 2, -1, Jump::In).index(), None);
    assert_eq!(src(1, 2, 5, Jump::In).index(), Some(5));
    let h = SourceLocationHelper { start: 1, length: 2 };
    assert!(h.matches(&src(1, 2, 9, Jump::Regular)));
    assert!(!h.matches(&src(1, 3, 9, Jump::Regular)));
}

#[test]
fn units_are_found_by_contract_name() {
    let units = vec![unit()];
    assert_eq!(unit_index_by_name(&units, "TestContract"), Some(0));
    assert_eq!(unit_index_by_name(&units, "Other"), None);
}

#[test]
fn steps_follow_the_calls() {
    let units = vec![unit()];
    let nodes = vec![node(vec![
        step(0, 0x5b, 2, None),
        step(1, 0x01, 2, Some((1, 2))),
        step(2, CALL, 3, None),
        step(3, 0x01, 3, None),
        step(4, 0x56, 3, None),
        step(5, 0x00, 3, None),
    ])];
    let (steps, assignments) = generate_steps(&units, &nodes).ok().unwrap();
    assert_eq!(steps.len(), 6);

    assert_eq!(steps[0].kind, StepKind::FunctionCall(FunctionCallKind::Call));
    assert!(steps[0].call_trace.is_empty());

    assert_eq!(steps[1].kind, StepKind::FunctionDefinition("test".to_string()));
    assert_eq!(steps[1].location.line, 5);
    assert_eq!(steps[1].call_trace, vec![0]);
    assert!(steps[1].variables_in_scope.is_empty());
    assert_eq!(steps[1].path, "test/T.t.sol");

    assert_eq!(steps[2].kind, StepKind::Statement(false));
    assert_eq!(steps[2].location.line, 6);
    assert_eq!(steps[2].variables_in_scope, vec![1, 3, 7]);
    assert!(steps[2].state_snapshot.storage.is_empty());

    assert_eq!(steps[3].kind, StepKind::FunctionCall(FunctionCallKind::Call));
    assert_eq!(steps[3].location.line, 7);
    assert_eq!(steps[3].call_trace, vec![0]);
    assert_eq!(steps[3].state_snapshot.storage, vec![(vec![1u8], vec![2u8])]);
    assert_eq!(steps[3].state_snapshot.stack.len(), 3);
    assert_eq!(steps[3].state_snapshot.memory, vec![0xaa]);

    assert_eq!(steps[4].kind, StepKind::Statement(false));
    assert_eq!(steps[4].location.line, 9);
    assert_eq!(steps[4].call_trace, vec![0, 3]);

    assert_eq!(steps[5].kind, StepKind::FunctionExit);
    assert_eq!(steps[5].call_trace, vec![0, 3]);
    assert_eq!(steps[5].variables_in_scope, vec![1, 3]);

    assert_eq!(assignments.get(&3), Some(&Assignment::Stack(1)));
    assert_eq!(assignments.get(&7), Some(&Assignment::Stack(0)));
}

#[test]
fn call_statement_without_a_call_is_skipped() {
    let units = vec![unit()];
    let nodes = vec![node(vec![
        step(0, 0x5b, 1, None),
        step(2, 0x01, 1, None),
        step(3, REVERT, 1, None),
    ])];
    let (steps, _) = generate_steps(&units, &nodes).ok().unwrap();
    assert_eq!(steps.len(), 4);
    assert_eq!(steps[1].kind, StepKind::FunctionDefinition("test".to_string()));
    assert_eq!(steps[2].kind, StepKind::Statement(true));
    assert_eq!(steps[2].call_trace, vec![0]);
    assert_eq!(steps[3].kind, StepKind::FunctionExit);
}

#[test]
fn reverted_call_exits_the_contract() {
    let units = vec![unit()];
    let nodes = vec![node(vec![step(0, 0x5b, 1, None), step(5, REVERT, 1, None)])];
    let (steps, _) = generate_steps(&units, &nodes).ok().unwrap();
    assert_eq!(steps.len(), 3);
    assert_eq!(steps[2].kind, StepKind::FunctionExit);
    assert_eq!(steps[2].location.line, 3);
    assert_eq!(steps[2].call_trace, vec![0]);
}

#[test]
fn second_entry_without_a_call_is_an_error() {
    let units = vec![unit()];
    let nodes = vec![node(vec![
        step(0, 0x5b, 1, None),
        step(3, 0x01, 1, None),
        step(0, 0x5b, 1, None),
    ])];
    assert!(matches!(
        generate_steps(&units, &nodes),
        Err(TraceError::FoundFunctionEntryWithoutCall)
    ));
}

#[test]
fn exit_without_an_open_call_is_an_error() {
    let units = vec![unit()];
    let nodes = vec![node(vec![
        step(4, 0x56, 1, None),
        step(3, 0x01, 1, None),
        step(4, 0x56, 1, None),
    ])];
    assert!(matches!(
        generate_steps(&units, &nodes),
        Err(TraceError::FoundFunctionExitWithoutCall)
    ));
}

#[test]
fn no_nodes_give_the_first_call_only() {
    let units = vec![unit()];
    let (steps, assignments) = generate_steps(&units, &vec![]).ok().unwrap();
    assert_eq!(steps.len(), 1);
    assert!(assignments.is_empty());
}

#[test]
fn a_match_says_what_it_points_at() {
    let u = unit();
    let (found, _) = u.match_location(&src(50, 200, 0, Jump::In));
    assert_eq!(found.unwrap().type_string(), "Function: test");
    let m = MatchResult::Instruction(inst(InstructionKind::Statement, 1, 2, 3));
    assert_eq!(m.type_string(), "Instruction");
}

#[test]
fn compressed_source_maps_are_read_entry_by_entry() {
    let map = BytecodeMap::new(&[0x60, 0x01, 0x5b, 0x5b, 0x5b], SOURCE_MAP);
    assert_eq!(map.source_map, source_map());
    assert_eq!(map.ic_pc_map.get(2), Some(1));
    assert_eq!(map._pc_ic_map.get(2), Some(1));
    assert_eq!(map.source_map[5].index(), None);
    assert_eq!(map.source_map[1].index(), Some(0));
}

#[test]
fn a_source_map_the_parser_refuses_gives_no_maps() {
    assert!(BytecodeMap::try_new(&[0x00], "1:2:3:x").is_none());
    let map = BytecodeMap::try_new(&[0x00], "1:2:3:-").unwrap();
    assert_eq!(map.source_map, vec![src(1, 2, 3, Jump::Regular)]);
}

#[test]
fn instruction_counters_are_found_by_program_counter() {
    let m = IcPcMap::new(&[0x60, 0x01, 0x01]);
    assert_eq!(m.get(0), Some(0));
    assert_eq!(m.get(2), Some(1));
    assert_eq!(m.get(1), None);
    let p = PcIcMap::new(&[0x60, 0x01, 0x01]);
    assert_eq!(p.get(2), Some(1));
}

fn run_nodes() -> Vec<DebugNode> {
    vec![node(vec![
        step(0, 0x5b, 2, None),
        step(1, 0x01, 2, Some((1, 2))),
        step(2, CALL, 3, None),
        step(3, 0x01, 3, None),
        step(4, 0x56, 3, None),
        step(5, 0x00, 3, None),
    ])]
}

#[test]
fn a_built_trace_holds_steps_variables_and_phases() {
    let mut recorder = MetricsRecorder::new();
    if let Some(earlier) = recorder.last_capture.checked_sub(Duration::from_millis(50)) {
        recorder.last_capture = earlier;
    }
    let started_early = recorder.last_capture.elapsed() >= Duration::from_millis(50);
    let mut u = unit();
    u.variables = vec![param(3), param(7)];
    let units = vec![u];
    let mut ctx = TraceContext::new();
    ctx.state_variables.insert(1, param(1));
    let t = build_trace(&units, &run_nodes(), &ctx, recorder).ok().unwrap();
    assert_eq!(t.steps.len(), 6);
    assert_eq!(t.steps[0].kind, StepKind::FunctionCall(FunctionCallKind::Call));
    assert!(t.steps[0].call_trace.is_empty());
    let mut ids: Vec<u64> = t.variables.keys().copied().collect();
    ids.sort();
    assert_eq!(ids, vec![1, 3, 7]);
    assert_eq!(t.assignments.get(&3), Some(&Assignment::Stack(1)));
    let phases: Vec<Action> = t.metrics.iter().map(|m| m.0).collect();
    assert_eq!(
        phases,
        vec![
            Action::GenerateDebugUnits,
            Action::PrepareDebugUnits,
            Action::GenerateSteps,
            Action::GenerateVariableDefinitions
        ]
    );
    if started_early {
        assert!(t.metrics[0].1 >= Duration::from_millis(50));
    }
}

#[test]
fn variable_definitions_take_state_variables_from_the_context() {
    let mut u = unit();
    u.variables = vec![param(3)];
    let mut ctx = TraceContext::new();
    ctx.state_variables.insert(1, param(1));
    let defs = variable_definitions(&vec![u], &ctx);
    assert_eq!(defs.len(), 2);
    assert_eq!(defs[&1].id, 1);
    assert_eq!(defs[&3].name, "amount");
}

fn sources(entries: Vec<(&str, Vec<u32>)>) -> Sources {
    Sources {
        sources_by_id: vec![],
        artifacts_by_name: entries
            .into_iter()
            .map(|(n, ids)| (n.to_string(), ids.into_iter().map(|file_id| DebugNodeArtifact { file_id }).collect()))
            .collect(),
    }
}

#[test]
fn a_unit_is_looked_up_through_its_one_artifact() {
    let files = vec![(4, vec![unit()])];
    let s = sources(vec![("TestContract", vec![4]), ("Twice", vec![4, 5]), ("Other", vec![9]), ("Elsewhere", vec![4])]);
    assert_eq!(get_debug_unit_from_name(&s, &files, "TestContract").unwrap().contract_name, "TestContract");
    assert_eq!(get_debug_unit_from_name(&s, &files, "Missing").err(), Some(UnitLookupError::ArtifactNotFound));
    assert_eq!(get_debug_unit_from_name(&s, &files, "Twice").err(), Some(UnitLookupError::MultipleArtifacts));
    assert_eq!(get_debug_unit_from_name(&s, &files, "Other").err(), Some(UnitLookupError::DebugUnitNotFound));
    assert_eq!(get_debug_unit_from_name(&s, &files, "Elsewhere").err(), Some(UnitLookupError::NotFound));
}

#[test]
fn a_dump_without_debug_information_is_refused() {
    let mut n = node(vec![step(0, 0x5b, 2, None)]);
    n.contract = "Unknown".to_string();
    assert_eq!(generate_steps_checked(&vec![unit()], &vec![n]).err(), Some(TraceError::MalformedDump));
    let uncovered = node(vec![step(40, 0x5b, 2, None)]);
    assert_eq!(generate_steps_checked(&vec![unit()], &vec![uncovered]).err(), Some(TraceError::MalformedDump));
    let ctx = TraceContext::new();
    assert_eq!(build_trace_checked(&vec![unit()], &run_nodes(), &ctx, MetricsRecorder::new()).err(), Some(TraceError::MalformedDump));
}

#[test]
fn variables_in_scope_follow_the_blocks_on_the_way() {
    let mut u = unit();
    let inner = Block {
        variables: vec![9],
        condition: Some(inst(InstructionKind::Statement, 160, 2, 10)),
        instructions: vec![
            inst(InstructionKind::VariableDeclaration(9), 170, 3, 11),
            inst(InstructionKind::Statement, 180, 3, 12),
        ],
        scopes: vec![],
        location: line(10),
    };
    u.functions[0].root_block.scopes[0].variables = vec![8];
    u.functions[0].root_block.scopes[0]
        .instructions
        .push(inst(InstructionKind::VariableDeclaration(8), 155, 2, 9));
    u.functions[0].root_block.scopes[0].scopes.push(inner);
    match u.match_location(&src(160, 2, 0, Jump::Regular)) {
        (Some(MatchResult::Instruction(i)), vars) => {
            assert_eq!(i.location.line, 10);
            assert_eq!(vars, vec![1, 3, 7, 8]);
        }
        _ => panic!("inner condition not found"),
    }
    match u.match_location(&src(180, 3, 0, Jump::Regular)) {
        (Some(MatchResult::Instruction(i)), vars) => {
            assert_eq!(i.location.line, 12);
            assert_eq!(vars, vec![1, 3, 7, 8, 9]);
        }
        _ => panic!("inner statement not found"),
    }
}
