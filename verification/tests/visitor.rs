use solstice::debugger::ast::{AstNode, AstSource, Attr, NodeType};
use solstice::debugger::tracer::{SourceLocation, StatementVisitorError, VariableLocation};
use solstice::debugger::units::{BytecodeMap, FunctionKind, Instruction, InstructionKind, SourceLocationHelper};
use solstice::debugger::visitor::{build_debug_variable, source_location_for, StatementVisitor};

const SOURCE: &str = "contract C {\n    function f(uint256 a) public {\n        g(a);\n        uint256 b = g(1);\n        if (a > 1) {\n            b = 2;\n        } else {\n            b = 3;\n        }\n    }\n    modifier m() {\n        _;\n    }\n}\n";

fn node(id: usize, node_type: NodeType, start: usize, length: usize, other: Vec<(&str, Attr)>) -> AstNode {
    AstNode {
        id: Some(id),
        node_type,
        src: AstSource { start, length: Some(length), index: Some(0) },
        nodes: vec![],
        body: None,
        other: other.into_iter().map(|(k, v)| (k.to_string(), v)).collect(),
    }
}

fn other(kind: &str) -> NodeType {
    NodeType::Other(kind.to_string())
}

fn text(s: &str) -> Attr {
    Attr::Str(s.to_string())
}

fn child(n: AstNode) -> Attr {
    Attr::Node(Box::new(n))
}

fn uint_type(start: usize) -> AstNode {
    node(90, other("ElementaryTypeName"), start, 7, vec![("name", text("uint256"))])
}

fn declaration(id: usize, name: &str, start: usize, length: usize, storage: &str) -> AstNode {
    node(
        id,
        NodeType::VariableDeclaration,
        start,
        length,
        vec![
            ("name", text(name)),
            ("typeName", child(uint_type(start))),
            ("constant", Attr::Bool(false)),
            ("storageLocation", text(storage)),
        ],
    )
}

fn call_of_g(start: usize, argument: AstNode) -> AstNode {
    node(
        30 + start,
        NodeType::FunctionCall,
        start,
        4,
        vec![
            ("expression", child(node(40, other("Identifier"), start, 1, vec![("referencedDeclaration", Attr::Int(20))]))),
            ("arguments", Attr::Nodes(vec![argument])),
        ],
    )
}

fn assignment_statement(id: usize, start: usize) -> AstNode {
    node(
        id,
        NodeType::ExpressionStatement,
        start,
        6,
        vec![("expression", child(node(id + 1, NodeType::Assignment, start, 5, vec![
            ("rightHandSide", child(node(id + 2, other("Literal"), start + 4, 1, vec![]))),
        ])))],
    )
}

fn parameter_list(start: usize, length: usize, params: Vec<AstNode>) -> AstNode {
    node(4, NodeType::ParameterList, start, length, vec![("parameters", Attr::Nodes(params))])
}

fn function_f() -> AstNode {
    let statement = node(
        10,
        NodeType::ExpressionStatement,
        56,
        5,
        vec![("expression", child(call_of_g(56, node(41, other("Identifier"), 58, 1, vec![]))))],
    );
    let declaration_statement = node(
        11,
        NodeType::VariableDeclarationStatement,
        70,
        17,
        vec![
            ("declarations", Attr::Nodes(vec![declaration(12, "b", 70, 9, "default")])),
            ("initialValue", child(call_of_g(82, node(42, other("Literal"), 84, 1, vec![])))),
        ],
    );
    let if_statement = node(
        13,
        NodeType::IfStatement,
        96,
        77,
        vec![
            ("condition", child(node(14, NodeType::BinaryOperation, 100, 5, vec![]))),
            ("trueBody", child(node(15, NodeType::Block, 107, 30, vec![
                ("statements", Attr::Nodes(vec![assignment_statement(16, 121)])),
            ]))),
            ("falseBody", child(node(20, NodeType::Block, 143, 30, vec![
                ("statements", Attr::Nodes(vec![assignment_statement(21, 157)])),
            ]))),
        ],
    );
    let body = node(
        6,
        NodeType::Block,
        46,
        133,
        vec![("statements", Attr::Nodes(vec![statement, declaration_statement, if_statement]))],
    );
    let mut f = node(
        3,
        NodeType::FunctionDefinition,
        17,
        162,
        vec![
            ("kind", text("function")),
            ("name", text("f")),
            ("parameters", child(parameter_list(27, 11, vec![declaration(5, "a", 28, 9, "default")]))),
        ],
    );
    f.body = Some(Box::new(body));
    f
}

fn modifier_m() -> AstNode {
    let body = node(
        51,
        NodeType::Block,
        197,
        18,
        vec![("statements", Attr::Nodes(vec![node(52, other("PlaceholderStatement"), 207, 2, vec![])]))],
    );
    let mut m = node(50, NodeType::ModifierDefinition, 184, 31, vec![("name", text("m"))]);
    m.body = Some(Box::new(body));
    m
}

fn contract(children: Vec<AstNode>) -> AstNode {
    let mut c = node(1, NodeType::ContractDefinition, 0, 217, vec![("name", text("C"))]);
    c.nodes = children;
    c
}

fn visitor() -> StatementVisitor {
    StatementVisitor::new(
        "C".to_string(),
        BytecodeMap::new(&[], ""),
        BytecodeMap::new(&[], ""),
        "src/C.sol".to_string(),
        SOURCE.to_string(),
    )
}

fn at(line: usize, column: usize, end_line: usize, end_column: usize, start: usize, length: usize) -> SourceLocation {
    SourceLocation {
        line,
        column,
        end_line: Some(end_line),
        end_column: Some(end_column),
        start_offset: start,
        length: Some(length),
    }
}

fn statement(location: SourceLocation, kind: InstructionKind, start: usize, length: usize) -> Instruction {
    Instruction { location, kind, loc: SourceLocationHelper { start, length } }
}

#[test]
fn source_location_counts_lines_and_columns() {
    let loc = source_location_for("ab\ncd", &AstSource { start: 4, length: Some(1), index: None });
    assert_eq!(loc, at(2, 1, 2, 2, 4, 1));
    let first = source_location_for("ab\ncd", &AstSource { start: 1, length: None, index: None });
    assert_eq!(first.line, 1);
    assert_eq!(first.column, 1);
    assert_eq!(first.end_line, None);
    assert_eq!(first.length, None);
}

#[test]
fn source_location_after_a_line_feed_starts_a_new_column() {
    let loc = source_location_for("ab\ncd", &AstSource { start: 3, length: Some(0), index: None });
    assert_eq!(loc, at(1, 0, 1, 0, 3, 0));
    let start = source_location_for(SOURCE, &AstSource { start: 0, length: Some(217), index: None });
    assert_eq!(start, at(0, 0, 14, 1, 0, 217));
}

#[test]
fn visit_contract_reads_functions_and_modifiers() {
    let mut v = visitor();
    let c = contract(vec![function_f(), modifier_m(), declaration(60, "total", 0, 5, "storage")]);
    assert_eq!(v.visit_contract(&c), Ok(()));
    assert!(v.contract_node.is_some());
    assert!(!v.in_constructor);
    let fns = &v.debug_unit.functions;
    assert_eq!(fns.len(), 2);

    let f = &fns[0];
    assert_eq!(f.name, "f");
    assert_eq!(f.kind, FunctionKind::Function);
    assert_eq!(f.loc, SourceLocationHelper { start: 17, length: 162 });
    assert_eq!(f.parameters.len(), 1);
    assert_eq!(f.parameters[0].name, "a");
    assert_eq!(f.parameters[0].id, 5);
    assert_eq!(f.parameters[0].location, VariableLocation::Stack);
    assert!(!f.parameters[0].state_variable);

    let root = &f.root_block;
    assert_eq!(root.location, at(2, 33, 10, 5, 46, 133));
    assert_eq!(root.variables, vec![11]);
    let call_statement = at(3, 8, 3, 13, 56, 5);
    let declaration_statement = at(4, 8, 4, 25, 70, 17);
    assert_eq!(
        root.instructions,
        vec![
            statement(call_statement, InstructionKind::FunctionCall, 56, 4),
            statement(call_statement, InstructionKind::Statement, 56, 5),
            statement(declaration_statement, InstructionKind::VariableDeclaration(11), 70, 17),
            statement(declaration_statement, InstructionKind::FunctionCall, 82, 4),
        ]
    );
    assert_eq!(root.scopes.len(), 2);
    let if_block = &root.scopes[0];
    assert_eq!(if_block.location, at(5, 19, 7, 9, 107, 30));
    assert_eq!(
        if_block.condition,
        Some(statement(at(5, 12, 5, 17, 100, 5), InstructionKind::Statement, 100, 5))
    );
    assert_eq!(
        if_block.instructions,
        vec![statement(at(6, 12, 6, 18, 121, 6), InstructionKind::Statement, 121, 6)]
    );
    let else_block = &root.scopes[1];
    assert_eq!(else_block.condition, None);
    assert_eq!(
        else_block.instructions,
        vec![statement(at(8, 12, 8, 18, 157, 6), InstructionKind::Statement, 157, 6)]
    );

    let m = &fns[1];
    assert_eq!(m.name, "m");
    assert_eq!(m.kind, FunctionKind::Modifier);
    assert!(m.parameters.is_empty());
    assert_eq!(m.root_block.location, at(11, 17, 13, 5, 197, 18));
    assert_eq!(
        m.root_block.instructions,
        vec![statement(at(12, 8, 12, 10, 207, 2), InstructionKind::Statement, 207, 2)]
    );

    let names: Vec<&str> = v.debug_unit.variables.iter().map(|x| x.name.as_str()).collect();
    assert_eq!(names, vec!["a", "b"]);
}

#[test]
fn visit_contract_names_the_constructor() {
    let mut v = visitor();
    let ctor = node(
        70,
        NodeType::FunctionDefinition,
        17,
        162,
        vec![("kind", text("constructor")), ("parameters", child(parameter_list(27, 2, vec![])))],
    );
    assert_eq!(v.visit_contract(&contract(vec![ctor])), Ok(()));
    assert_eq!(v.debug_unit.functions.len(), 1);
    let f = &v.debug_unit.functions[0];
    assert_eq!(f.name, "constructor");
    assert_eq!(f.kind, FunctionKind::Constructor);
    assert!(f.root_block.instructions.is_empty());
    assert!(f.root_block.scopes.is_empty());
    assert_eq!(f.root_block.location, SourceLocation::new());
    assert!(!v.in_constructor);
}

#[test]
fn a_later_definition_replaces_one_of_the_same_name() {
    let mut v = visitor();
    let mut second = modifier_m();
    second.other[0].1 = text("f");
    assert_eq!(v.visit_contract(&contract(vec![function_f(), modifier_m(), second])), Ok(()));
    let fns = &v.debug_unit.functions;
    assert_eq!(fns.len(), 2);
    assert_eq!(fns[0].name, "f");
    assert_eq!(fns[0].kind, FunctionKind::Modifier);
    assert_eq!(fns[1].name, "m");
}

#[test]
fn a_function_without_kind_is_refused() {
    let mut v = visitor();
    let mut f = function_f();
    f.other.remove(0);
    assert_eq!(
        v.visit_contract(&contract(vec![f])),
        Err(StatementVisitorError::MissingAttribute("kind".to_string()))
    );
}

#[test]
fn parameters_must_be_a_parameter_list() {
    let mut v = visitor();
    let mut f = function_f();
    f.other[2].1 = child(node(4, NodeType::Block, 27, 11, vec![]));
    assert_eq!(
        v.visit_contract(&contract(vec![f])),
        Err(StatementVisitorError::IncorrectType("ParameterList".to_string(), "Block".to_string()))
    );
}

#[test]
fn a_modifier_without_name_is_refused() {
    let mut v = visitor();
    let mut m = modifier_m();
    m.other.clear();
    assert_eq!(
        v.visit_contract(&contract(vec![m])),
        Err(StatementVisitorError::MissingAttribute("name".to_string()))
    );
}

#[test]
fn variables_take_their_storage_location() {
    let d = declaration(7, "total", 0, 5, "storage");
    let var = build_debug_variable(&d, VariableLocation::Stack).unwrap().unwrap();
    assert_eq!(var.name, "total");
    assert_eq!(var.id, 7);
    assert_eq!(var.location, VariableLocation::Storage);
    assert!(var.state_variable);
    let d = declaration(8, "x", 0, 5, "default");
    let var = build_debug_variable(&d, VariableLocation::Memory).unwrap().unwrap();
    assert_eq!(var.location, VariableLocation::Memory);
    assert!(!var.state_variable);
}

#[test]
fn an_unknown_storage_location_is_refused() {
    let d = declaration(7, "total", 0, 5, "heap");
    assert_eq!(
        build_debug_variable(&d, VariableLocation::Stack).unwrap_err(),
        StatementVisitorError::UnexpectedStorageLocation("heap".to_string())
    );
    let mut d = declaration(7, "total", 0, 5, "heap");
    d.other.pop();
    assert_eq!(
        build_debug_variable(&d, VariableLocation::Stack).unwrap_err(),
        StatementVisitorError::MissingAttribute("storageLocation".to_string())
    );
}

#[test]
fn a_statement_that_declares_nothing_gives_no_variable() {
    let n = node(9, NodeType::VariableDeclarationStatement, 0, 5, vec![]);
    assert!(build_debug_variable(&n, VariableLocation::Stack).unwrap().is_none());
}

fn block_ids(b: &solstice::debugger::units::Block, out: &mut Vec<usize>) {
    out.extend(b.variables.iter().copied());
    for s in &b.scopes {
        block_ids(s, out);
    }
}

#[test]
fn every_block_variable_is_a_unit_variable() {
    let mut v = visitor();
    let c = contract(vec![function_f(), modifier_m()]);
    assert_eq!(v.visit_contract(&c), Ok(()));
    let declared: Vec<usize> = v.debug_unit.variables.iter().map(|x| x.id as usize).collect();
    let mut listed = vec![];
    for f in &v.debug_unit.functions {
        block_ids(&f.root_block, &mut listed);
    }
    assert!(!listed.is_empty());
    for id in listed {
        assert!(declared.contains(&id));
    }
}

#[test]
fn a_call_is_listed_before_its_statement() {
    let mut v = visitor();
    assert_eq!(v.visit_contract(&contract(vec![function_f()])), Ok(()));
    let insts = &v.debug_unit.functions[0].root_block.instructions;
    assert_eq!(insts[0].kind, InstructionKind::FunctionCall);
    assert_eq!(insts[1].kind, InstructionKind::Statement);
    assert_eq!(insts[0].location, insts[1].location);
}

#[test]
fn errors_read_as_words() {
    assert_eq!(StatementVisitorError::ParseError.message(), "ParseError");
    assert_eq!(
        StatementVisitorError::MissingAttribute("kind".to_string()).message(),
        "MissingAttribute: kind"
    );
    assert_eq!(
        StatementVisitorError::IncorrectType("ParameterList".to_string(), "Block".to_string()).message(),
        "IncorrectType: expected ParameterList, got Block"
    );
    assert_eq!(
        StatementVisitorError::UnexpectedStorageLocation("heap".to_string()).message(),
        "UnexpectedStorageLocation: heap"
    );
}

#[test]
fn a_definition_without_length_is_a_parse_error() {
    let mut v = visitor();
    let mut f = function_f();
    f.src.length = None;
    assert_eq!(v.visit_contract(&contract(vec![f])), Err(StatementVisitorError::ParseError));
    let mut v = visitor();
    let mut m = modifier_m();
    m.src.length = None;
    assert_eq!(v.visit_contract(&contract(vec![m])), Err(StatementVisitorError::ParseError));
}

#[test]
fn a_statement_outside_the_source_is_a_parse_error() {
    let mut v = visitor();
    let stray = node(70, other("Return"), 5000, 3, vec![]);
    let block = node(71, NodeType::Block, 46, 133, vec![("statements", Attr::Nodes(vec![stray]))]);
    assert_eq!(v.build_debug_block(&block).err(), Some(StatementVisitorError::ParseError));
    let mut v = visitor();
    let far = node(72, NodeType::Block, 9000, 2, vec![]);
    assert_eq!(v.build_debug_block(&far).err(), Some(StatementVisitorError::ParseError));
}

#[test]
fn a_call_without_length_is_a_parse_error() {
    let mut v = visitor();
    let mut call = call_of_g(56, node(41, other("Identifier"), 58, 1, vec![]));
    call.src.length = None;
    let st = node(10, NodeType::ExpressionStatement, 56, 5, vec![("expression", child(call))]);
    let block = node(6, NodeType::Block, 46, 133, vec![("statements", Attr::Nodes(vec![st]))]);
    assert_eq!(v.build_debug_block(&block).err(), Some(StatementVisitorError::ParseError));
}

#[test]
fn a_readable_block_lists_its_statement() {
    let mut v = visitor();
    let st = node(10, other("Return"), 56, 5, vec![]);
    let block = node(6, NodeType::Block, 46, 133, vec![("statements", Attr::Nodes(vec![st]))]);
    let b = v.build_debug_block(&block).unwrap();
    assert_eq!(b.instructions.len(), 1);
    assert_eq!(b.instructions[0].kind, InstructionKind::Statement);
    assert_eq!(b.instructions[0].loc, SourceLocationHelper { start: 56, length: 5 });
}

#[test]
fn calls_of_an_expression_are_listed_at_the_statement() {
    let v = visitor();
    let place = at(2, 8, 2, 13, 56, 5);
    let mut block = solstice::debugger::units::Block {
        variables: vec![],
        condition: None,
        instructions: vec![],
        scopes: vec![],
        location: place,
    };
    let call = call_of_g(56, call_of_g(58, node(41, other("Identifier"), 60, 1, vec![])));
    assert_eq!(v.process_expression_for_function_calls(&call, &mut block, &place), Ok(()));
    assert_eq!(block.instructions.len(), 2);
    assert_eq!(block.instructions[0], statement(place, InstructionKind::FunctionCall, 56, 4));
    assert_eq!(block.instructions[1], statement(place, InstructionKind::FunctionCall, 58, 4));
    let mut broken = call_of_g(56, node(41, other("Identifier"), 58, 1, vec![]));
    broken.src.length = None;
    assert_eq!(
        v.process_expression_for_function_calls(&broken, &mut block, &place),
        Err(StatementVisitorError::ParseError)
    );
}
