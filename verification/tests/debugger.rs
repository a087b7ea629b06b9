use std::collections::HashMap;

use solstice::debugger::tracer::{
    DebugStep, DebugTrace, FunctionCallKind, SourceLocation, StateSnapshot, StepKind,
};
use solstice::debugger::ast::{AstNode, AstSource, NodeType};
use solstice::debugger::tracer::{DebugTraceStep, StackFrame, Variable, VariableLocation};
use solstice::debugger::builder::Assignment;
use solstice::debugger::{dap_scopes, dap_stack_frames, DapFrame, Debugger, VariableReadError};

const PATH: &str = "/workspace/test/debug/TestContract.t.sol";

fn step(kind: StepKind, line: usize, call_trace: Vec<usize>) -> DebugStep {
    let mut location = SourceLocation::new();
    location.line = line;
    DebugStep {
        location,
        variables_in_scope: vec![],
        path: PATH.to_string(),
        call_trace,
        kind,
        state_snapshot: StateSnapshot {
            memory: vec![],
            stack: vec![],
            storage: vec![],
        },
    }
}

fn call(line: usize, call_trace: Vec<usize>) -> DebugStep {
    step(StepKind::FunctionCall(FunctionCallKind::Call), line, call_trace)
}

fn def(name: &str, line: usize, call_trace: Vec<usize>) -> DebugStep {
    step(StepKind::FunctionDefinition(name.to_string()), line, call_trace)
}

fn stmt(line: usize, call_trace: Vec<usize>) -> DebugStep {
    step(StepKind::Statement(false), line, call_trace)
}

fn exit(line: usize, call_trace: Vec<usize>) -> DebugStep {
    step(StepKind::FunctionExit, line, call_trace)
}

fn trace(steps: Vec<DebugStep>) -> DebugTrace {
    DebugTrace {
        steps,
        variables: HashMap::new(),
        assignments: HashMap::new(),
        metrics: vec![],
    }
}

/// The steps that the test contract's deployment and the call of `test()` start with.
fn prologue() -> Vec<DebugStep> {
    vec![call(0, vec![]), exit(4, vec![0])]
}

#[test]
fn test_debugger_breakpoints_continue() {
    // function test() public {      // line 5
    //     uint256 a = 1; // line 6
    //     uint256 b = 2; // line 7
    //     uint256 c = 3; // line 8
    // }
    let mut steps = prologue();
    steps.extend(vec![
        def("test", 5, vec![]),
        stmt(6, vec![]),
        stmt(7, vec![]),
        stmt(8, vec![]),
    ]);
    let mut debugger = Debugger::new(trace(steps));

    let abs_path = debugger.trace.steps[0].path.clone();
    debugger.set_breakpoint(abs_path.to_string(), 7);

    assert_eq!(debugger.cont(), Some(7));
    assert_eq!(debugger.next(), Some(8));
    assert_eq!(debugger.prev(), Some(7));
    assert_eq!(debugger.prev(), Some(6));
    assert_eq!(debugger.cont(), Some(7));
    assert_eq!(debugger.cont(), None);
}

#[test]
fn test_debugger_next_skips_function_calls() {
    // function helper() public returns (uint256) { // line 5
    //     uint256 a = 10; // line 6
    //     return a; // line 7
    // }
    // function test() public {
    //     uint256 x = 5; // line 10
    //     uint256 y = helper(); // line 11
    //     uint256 z = 15; // line 12
    // }
    let mut steps = prologue();
    steps.extend(vec![
        def("test", 9, vec![]),
        stmt(10, vec![]),
        call(11, vec![]),
        def("helper", 5, vec![4]),
        stmt(6, vec![4]),
        stmt(7, vec![4]),
        stmt(11, vec![]),
        stmt(12, vec![]),
    ]);
    let mut debugger = Debugger::new(trace(steps));

    assert_eq!(debugger.next(), Some(10));
    assert_eq!(debugger.next(), Some(11));
    assert_eq!(debugger.next(), Some(12));
}

#[test]
fn test_debugger_next_skips_function_calls_within_statement() {
    // function call() public returns (uint256) { // line 5
    //     return 42;
    // }
    // function test() public {
    //     uint256 x = 10; // line 9
    //     uint256 y = call() + call(); // line 10
    //     uint256 z = 20; // line 11
    // }
    let mut steps = prologue();
    steps.extend(vec![
        def("test", 8, vec![]),
        stmt(9, vec![]),
        call(10, vec![]),
        def("call", 5, vec![4]),
        stmt(6, vec![4]),
        call(10, vec![]),
        def("call", 5, vec![7]),
        stmt(6, vec![7]),
        stmt(10, vec![]),
        stmt(11, vec![]),
    ]);
    let mut debugger = Debugger::new(trace(steps));
    assert_eq!(debugger.next(), Some(9));
    assert_eq!(debugger.next(), Some(10));
    assert_eq!(debugger.next(), Some(11));
}

#[test]
fn test_debugger_next_skips_standalone_function_calls() {
    // function helper() public { // line 5
    //     uint256 a = 10; // line 6
    // }
    // function test() public {
    //     uint256 x = 5; // line 9
    //     helper(); // line 10 - standalone call
    //     uint256 z = 15; // line 11
    // }
    let mut steps = prologue();
    steps.extend(vec![
        def("test", 8, vec![]),
        stmt(9, vec![]),
        call(10, vec![]),
        def("helper", 5, vec![4]),
        stmt(6, vec![4]),
        stmt(11, vec![]),
    ]);
    let mut debugger = Debugger::new(trace(steps));

    assert_eq!(debugger.next(), Some(9));
    assert_eq!(debugger.next(), Some(10));
    assert_eq!(debugger.next(), Some(11));
}

#[test]
fn test_debugger_next_stays_within_current_function_scope() {
    // function call() public returns (uint256) { // line 5
    //     uint256 x = 10; // line 6
    //     return 42; // line 7
    // }
    // function test() public {
    //     uint256 x = 10; // line 10
    //     uint256 y = call(); // line 11
    //     call(); // line 12 - standalone call
    //     uint256 z = 20; // line 13
    // }
    let mut steps = prologue();
    steps.extend(vec![
        def("test", 9, vec![]),
        stmt(10, vec![]),
        call(11, vec![]),
        def("call", 5, vec![4]),
        stmt(6, vec![4]),
        stmt(7, vec![4]),
        stmt(11, vec![]),
        call(12, vec![]),
        def("call", 5, vec![9]),
        stmt(6, vec![9]),
        stmt(7, vec![9]),
        stmt(13, vec![]),
    ]);
    let mut debugger = Debugger::new(trace(steps));

    assert_eq!(debugger.next(), Some(10));
    assert_eq!(debugger.next(), Some(11));
    assert_eq!(debugger.step_in(), Some(6));
    assert_eq!(debugger.next(), Some(7));
    assert_eq!(debugger.next(), Some(11));
    assert_eq!(debugger.next(), Some(12));
    assert_eq!(debugger.step_in(), Some(6));
    assert_eq!(debugger.next(), Some(7));
    assert_eq!(debugger.next(), Some(13));
    assert_eq!(debugger.next(), None);
}

#[test]
fn test_debugger_step_in_step_out_navigation() {
    // function helper() public returns (uint256) { // line 5
    //     uint256 a = 10; // line 6
    //     return a; // line 7
    // }
    // function test() public {
    //     uint256 x = 5; // line 10
    //     uint256 y = helper(); // line 11
    //     uint256 z = 15; // line 12
    // }
    let mut steps = prologue();
    steps.extend(vec![
        def("test", 9, vec![]),
        stmt(10, vec![]),
        call(11, vec![]),
        def("helper", 5, vec![4]),
        stmt(6, vec![4]),
        stmt(7, vec![4]),
        stmt(11, vec![]),
        stmt(12, vec![]),
    ]);
    let mut debugger = Debugger::new(trace(steps));

    assert_eq!(debugger.next(), Some(10));
    assert_eq!(debugger.step_in(), Some(11));
    assert_eq!(debugger.step_in(), Some(6));
    assert_eq!(debugger.next(), Some(7));
    assert_eq!(debugger.step_out(), Some(11));
    assert_eq!(debugger.prev(), Some(10));
    assert_eq!(debugger.next(), Some(11));
    assert_eq!(debugger.step_in(), Some(6));
    assert_eq!(debugger.prev(), Some(11));
    assert_eq!(debugger.next(), Some(12));
}

#[test]
fn prev_at_the_start_stays_and_returns_none() {
    let mut debugger = Debugger::new(trace(vec![def("test", 3, vec![]), stmt(4, vec![])]));
    assert_eq!(debugger.prev(), None);
    assert_eq!(debugger.indx, 0);
}

#[test]
fn step_out_of_the_outermost_function_returns_none() {
    let mut debugger = Debugger::new(trace(vec![stmt(4, vec![]), stmt(5, vec![])]));
    assert_eq!(debugger.step_out(), None);
    assert_eq!(debugger.indx, 0);
}

#[test]
fn breakpoint_needs_path_and_line() {
    let mut debugger = Debugger::new(trace(vec![stmt(4, vec![])]));
    debugger.set_breakpoint(PATH.to_string(), 4);
    assert!(debugger.is_breakpoint(PATH.to_string(), 4));
    assert!(!debugger.is_breakpoint(PATH.to_string(), 5));
    assert!(!debugger.is_breakpoint("other.sol".to_string(), 4));
}

#[test]
fn last_moves_to_the_final_step() {
    let mut debugger = Debugger::new(trace(vec![stmt(4, vec![]), stmt(5, vec![]), stmt(6, vec![])]));
    debugger.last();
    assert_eq!(debugger.indx, 2);
    assert_eq!(debugger.debug_location(), 6);
}

#[test]
fn stack_frames_follow_the_call_trace() {
    let mut steps = prologue();
    steps.extend(vec![
        def("test", 9, vec![]),
        stmt(10, vec![]),
        call(11, vec![]),
        def("helper", 5, vec![4]),
        stmt(6, vec![4]),
    ]);
    let mut debugger = Debugger::new(trace(steps));
    debugger.indx = 6;
    let frames = debugger.trace().stack_frames;
    assert_eq!(frames.len(), 2);
    assert_eq!(frames[0].location.line, 11);
    assert_eq!(frames[1].location.line, 6);
    assert_eq!(frames[1].parent_func, "helper");
}

fn frame(parent: &str, line: usize, column: usize, end: Option<(usize, usize)>) -> StackFrame {
    let mut location = SourceLocation::new();
    location.line = line;
    location.column = column;
    if let Some((l, c)) = end {
        location.end_line = Some(l);
        location.end_column = Some(c);
    }
    StackFrame { parent_func: parent.to_string(), path: PATH.to_string(), location }
}

#[test]
fn stack_frames_are_shown_innermost_first() {
    let step = DebugTraceStep {
        stack_frames: vec![frame("test", 10, 4, Some((10, 20))), frame("inner", 3, 0, None)],
    };
    let (frames, total) = dap_stack_frames(&step);
    assert_eq!(total, 2);
    assert_eq!(
        frames,
        vec![
            DapFrame {
                id: 0,
                name: "Frame 0".to_string(),
                line: 3,
                column: 1,
                end_line: None,
                end_column: None,
                path: PATH.to_string(),
            },
            DapFrame {
                id: 1,
                name: "Frame 1".to_string(),
                line: 10,
                column: 5,
                end_line: Some(10),
                end_column: Some(21),
                path: PATH.to_string(),
            },
        ]
    );
}

#[test]
fn breakpoints_are_set_on_each_line() {
    let mut steps = prologue();
    steps.extend(vec![def("test", 5, vec![]), stmt(6, vec![]), stmt(7, vec![]), stmt(8, vec![])]);
    let mut debugger = Debugger::new(trace(steps));
    assert_eq!(debugger.set_breakpoints(PATH.to_string(), &vec![6, 8]), vec![6, 8]);
    assert_eq!(debugger.breakpoints.len(), 2);
    assert_eq!(debugger.cont(), Some(6));
    assert_eq!(debugger.cont(), Some(8));
}

fn variable(name: &str, id: u64) -> Variable {
    Variable {
        name: name.to_string(),
        id,
        state_variable: false,
        location: VariableLocation::Stack,
        is_constant: false,
        declared_type: AstNode {
            id: None,
            node_type: NodeType::Other("ElementaryTypeName".to_string()),
            src: AstSource { start: 0, length: None, index: None },
            nodes: vec![],
            body: None,
            other: vec![],
        },
    }
}

#[test]
fn scopes_name_each_variable_by_id() {
    assert!(dap_scopes(vec![]).is_empty());
    let scopes = dap_scopes(vec![variable("a", 7), variable("total", 12)]);
    assert_eq!(scopes, vec![("a".to_string(), 7), ("total".to_string(), 12)]);
}

#[test]
fn a_variable_is_read_from_its_stack_word() {
    let mut s = stmt(5, vec![]);
    s.state_snapshot.stack = vec![vec![0u8; 32], vec![7u8; 32]];
    let mut t = trace(vec![s]);
    t.variables.insert(3, variable("amount", 3));
    t.variables.insert(4, variable("other", 4));
    t.assignments.insert(3, Assignment::Stack(1));
    t.assignments.insert(5, Assignment::Stack(0));
    t.assignments.insert(4, Assignment::Stack(2));
    let debugger = Debugger::new(t);
    let (var, word) = debugger.variable_word(3).unwrap().unwrap();
    assert_eq!(var.name, "amount");
    assert_eq!(word, vec![7u8; 32]);
    assert!(debugger.variable_word(5).unwrap().is_none());
    assert!(debugger.variable_word(9).unwrap().is_none());
    assert_eq!(debugger.variable_word(4).err(), Some(VariableReadError::NoStackValue(2)));
}
