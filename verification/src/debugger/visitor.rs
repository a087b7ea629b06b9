//! Reading the debug information of a contract out of its syntax tree: its
//! functions and modifiers, their parameters, and the blocks, statements,
//! calls and variable declarations of their bodies, each with its place in the
//! source.
use vstd::prelude::*;
use vstd::utf8::encode_utf8;

use crate::debugger::ast::{
    attr_bool, attr_i32, attr_node, attr_nodes, attr_str, bool_attribute, clone_node,
    i32_attribute, lemma_attr_node_decreases, node_attribute, node_type_name, nodes_attribute,
    same_node, str_attribute, AstNode, AstSource, NodeType,
};
use crate::debugger::tracer::{SourceLocation, StatementVisitorError, Variable, VariableLocation};
use crate::debugger::units::{
    Block, BytecodeMap, DebugUnit, Function, FunctionKind, Instruction, InstructionKind,
    SourceLocationHelper,
};
use crate::text::str_eq;

verus! {

/// The number of line feeds in `b`.
pub open spec fn byte_newlines(b: Seq<u8>) -> nat
    decreases b.len(),
{
    if b.len() == 0 {
        0
    } else {
        byte_newlines(b.drop_last()) + if b.last() == 10u8 {
            1nat
        } else {
            0nat
        }
    }
}

/// The number of lines of `b`, as `str::lines` counts them.
pub open spec fn byte_lines(b: Seq<u8>) -> nat {
    byte_newlines(b) + if b.len() > 0 && b.last() != 10u8 {
        1nat
    } else {
        0nat
    }
}

/// The position of the last line feed of `b`.
pub open spec fn last_newline(b: Seq<u8>) -> Option<int>
    decreases b.len(),
{
    if b.len() == 0 {
        None
    } else if b.last() == 10u8 {
        Some(b.len() - 1)
    } else {
        last_newline(b.drop_last())
    }
}

/// A `str` can be cut at byte `k`: its end, or a byte that starts a character.
pub open spec fn is_boundary(b: Seq<u8>, k: int) -> bool {
    &&& 0 <= k <= b.len()
    &&& (k == b.len() || !(0x80 <= b[k] < 0xC0))
}

/// The column of byte `k`: the bytes since the last line feed before it.
pub open spec fn column_at(b: Seq<u8>, k: int) -> int {
    match last_newline(b.take(k)) {
        Some(p) => k - p - 1,
        None => k,
    }
}

/// The range can be cut out of the source.
pub open spec fn location_ok(src: Seq<u8>, loc: AstSource) -> bool {
    &&& is_boundary(src, loc.start as int)
    &&& loc.length matches Some(l) ==> loc.start + l <= usize::MAX && is_boundary(src, loc.start + l)
}

/// The line and column of the start of a range (and of its end, where its
/// length is known), with lines counted as `str::lines` counts them.
pub open spec fn location_for(src: Seq<u8>, loc: AstSource) -> SourceLocation {
    let start = loc.start as int;
    match loc.length {
        Some(len) => SourceLocation {
            line: byte_lines(src.take(start)) as usize,
            column: column_at(src, start) as usize,
            end_line: Some(byte_lines(src.take(start + len)) as usize),
            end_column: Some(column_at(src, start + len) as usize),
            start_offset: loc.start,
            length: Some(len),
        },
        None => SourceLocation {
            line: byte_lines(src.take(start)) as usize,
            column: column_at(src, start) as usize,
            end_line: None,
            end_column: None,
            start_offset: loc.start,
            length: None,
        },
    }
}

proof fn lemma_newlines_le(b: Seq<u8>)
    ensures
        byte_newlines(b) <= b.len(),
    decreases b.len(),
{
    if b.len() > 0 {
        lemma_newlines_le(b.drop_last());
    }
}

proof fn lemma_last_newline_bounds(b: Seq<u8>)
    ensures
        last_newline(b) matches Some(p) ==> 0 <= p < b.len(),
    decreases b.len(),
{
    if b.len() > 0 {
        lemma_last_newline_bounds(b.drop_last());
    }
}

/// The number of lines before byte `k`, and the column of byte `k`.
fn line_and_column(b: &[u8], k: usize) -> (r: (usize, usize))
    requires
        k <= b@.len(),
    ensures
        r.0 == byte_lines(b@.take(k as int)),
        r.1 == column_at(b@, k as int),
{
    let mut newlines: usize = 0;
    let mut last: Option<usize> = None;
    let mut i: usize = 0;
    while i < k
        invariant
            k <= b@.len(),
            i <= k,
            newlines == byte_newlines(b@.take(i as int)),
            match last_newline(b@.take(i as int)) {
                Some(p) => last == Some(p as usize),
                None => last is None,
            },
        decreases k - i,
    {
        assert(b@.take(i + 1).drop_last() =~= b@.take(i as int));
        proof {
            lemma_newlines_le(b@.take(i as int));
        }
        if b[i] == 10u8 {
            newlines = newlines + 1;
            last = Some(i);
        }
        i = i + 1;
    }
    proof {
        lemma_newlines_le(b@.take(k as int));
        lemma_last_newline_bounds(b@.take(k as int));
    }
    let lines = if k > 0 && b[k - 1] != 10u8 {
        proof {
            assert(b@.take(k as int).drop_last() =~= b@.take(k - 1));
            lemma_newlines_le(b@.take(k - 1));
        }
        newlines + 1
    } else {
        newlines
    };
    let column = match last {
        Some(p) => k - p - 1,
        None => k,
    };
    (lines, column)
}

/// The place in the source of the range `loc`.
pub fn source_location_for(source: &str, loc: &AstSource) -> (r: SourceLocation)
    requires
        location_ok(encode_utf8(source@), *loc),
    ensures
        r == location_for(encode_utf8(source@), *loc),
{
    let b = source.as_bytes();
    let (line, column) = line_and_column(b, loc.start);
    match loc.length {
        Some(length) => {
            let end_pos = loc.start + length;
            let (end_line, end_column) = line_and_column(b, end_pos);
            SourceLocation {
                line,
                column,
                end_line: Some(end_line),
                end_column: Some(end_column),
                start_offset: loc.start,
                length: Some(length),
            }
        },
        None => SourceLocation {
            line,
            column,
            end_line: None,
            end_column: None,
            start_offset: loc.start,
            length: None,
        },
    }
}

/// Whether the range `loc` can be cut out of the source `source`.
pub fn location_ok_exec(source: &str, loc: &AstSource) -> (r: bool)
    ensures
        r == location_ok(encode_utf8(source@), *loc),
{
    let b = source.as_bytes();
    let n = b.len();
    let start = loc.start;
    let start_ok = start <= n && (start == n || !(0x80u8 <= b[start] && b[start] < 0xC0u8));
    if !start_ok {
        return false;
    }
    match loc.length {
        None => true,
        Some(l) => {
            if l > usize::MAX - start {
                return false;
            }
            let end = start + l;
            end <= n && (end == n || !(0x80u8 <= b[end] && b[end] < 0xC0u8))
        },
    }
}

/// An error of reading the syntax tree, with names by their characters.
pub enum ErrView {
    ParseError,
    MissingAttribute(Seq<char>),
    IncorrectType(Seq<char>, Seq<char>),
    UnexpectedStorageLocation(Seq<char>),
}

pub open spec fn err_view(e: StatementVisitorError) -> ErrView {
    match e {
        StatementVisitorError::ParseError => ErrView::ParseError,
        StatementVisitorError::MissingAttribute(a) => ErrView::MissingAttribute(a@),
        StatementVisitorError::IncorrectType(x, y) => ErrView::IncorrectType(x@, y@),
        StatementVisitorError::UnexpectedStorageLocation(l) => ErrView::UnexpectedStorageLocation(l@),
    }
}

/// How reading a part of the syntax tree ends: with what was read, with an
/// error, or on a tree that breaks what the compiler guarantees of it (a range
/// without a length, a declaration without its type, a kind of node that a
/// contract cannot hold).
pub enum Built<T> {
    Read(T),
    Failed(ErrView),
    Malformed,
}

/// A variable as plain values.
pub struct VarSpec {
    pub name: Seq<char>,
    pub id: u64,
    pub state_variable: bool,
    pub location: VariableLocation,
    pub is_constant: bool,
    pub type_node: AstNode,
}

pub open spec fn var_is(v: Variable, s: VarSpec) -> bool {
    &&& v.name@ == s.name
    &&& v.id == s.id
    &&& v.state_variable == s.state_variable
    &&& v.location == s.location
    &&& v.is_constant == s.is_constant
    &&& same_node(v.declared_type, s.type_node)
}

pub open spec fn vars_are(v: Seq<Variable>, s: Seq<VarSpec>) -> bool {
    &&& v.len() == s.len()
    &&& forall|i: int| 0 <= i < v.len() ==> var_is(#[trigger] v[i], s[i])
}

/// The storage location that the tree names `s`; `"default"` is `default`.
pub open spec fn storage_location(s: Seq<char>, default: VariableLocation) -> Option<VariableLocation> {
    if s == "storage"@ {
        Some(VariableLocation::Storage)
    } else if s == "memory"@ {
        Some(VariableLocation::Memory)
    } else if s == "stack"@ {
        Some(VariableLocation::Stack)
    } else if s == "calldata"@ {
        Some(VariableLocation::Calldata)
    } else if s == "default"@ {
        Some(default)
    } else {
        None
    }
}

/// The variable that the declaration `d` declares with id `id` (from the
/// attributes `name`, `typeName`, `constant` and `storageLocation`).
pub open spec fn declared_variable(
    name: Seq<char>,
    d: AstNode,
    id: Option<usize>,
    default: VariableLocation,
    names_itself: bool,
) -> Built<Option<VarSpec>> {
    match attr_node(d, "typeName"@) {
        None => Built::Malformed,
        Some(t) => match attr_bool(d, "constant"@) {
            None => Built::Malformed,
            Some(c) => match attr_str(d, "storageLocation"@) {
                None => Built::Failed(ErrView::MissingAttribute("storageLocation"@)),
                Some(sl) => match storage_location(sl, default) {
                    None => Built::Failed(ErrView::UnexpectedStorageLocation(sl)),
                    Some(loc) => match id {
                        Some(i) => Built::Read(
                            Some(
                                VarSpec {
                                    name,
                                    id: i as u64,
                                    state_variable: names_itself && loc == VariableLocation::Storage,
                                    location: loc,
                                    is_constant: c,
                                    type_node: t,
                                },
                            ),
                        ),
                        None => if names_itself {
                            Built::Read(None)
                        } else {
                            Built::Malformed
                        },
                    },
                },
            },
        },
    }
}

/// The variable that a declaration node declares: a state variable or
/// parameter names itself; a statement declares its first declaration, under
/// its own id; nothing where it declares none.
pub open spec fn variable_spec(n: AstNode, default: VariableLocation) -> Built<Option<VarSpec>> {
    match attr_str(n, "name"@) {
        Some(name) => declared_variable(name, n, n.id, default, true),
        None => match attr_nodes(n, "declarations"@) {
            None => Built::Read(None),
            Some(decls) => if decls.len() == 0 {
                Built::Malformed
            } else {
                match attr_str(decls[0], "name"@) {
                    None => Built::Failed(ErrView::MissingAttribute("name"@)),
                    Some(name) => declared_variable(name, decls[0], n.id, default, false),
                }
            },
        },
    }
}

fn missing(name: &str) -> (r: StatementVisitorError)
    ensures
        err_view(r) == ErrView::MissingAttribute(name@),
{
    StatementVisitorError::MissingAttribute(name.to_owned())
}

/// The variable of the declaration `d`, named `name`, with id `id`; `None`
/// where the tree is malformed.
fn build_declared_variable(
    name: String,
    d: &AstNode,
    id: Option<usize>,
    default: VariableLocation,
    names_itself: bool,
) -> (r: Option<Result<Option<Variable>, StatementVisitorError>>)
    ensures
        match declared_variable(name@, *d, id, default, names_itself) {
            Built::Read(None) => r matches Some(Ok(None)),
            Built::Read(Some(v)) => r matches Some(Ok(Some(x))) && var_is(x, v),
            Built::Failed(e) => r matches Some(Err(x)) && err_view(x) == e,
            Built::Malformed => r is None,
        },
{
    let declared = match node_attribute(d, "typeName") {
        Some(t) => t,
        None => {
            return None;
        },
    };
    let is_constant = match bool_attribute(d, "constant") {
        Some(c) => c,
        None => {
            return None;
        },
    };
    let storage = match str_attribute(d, "storageLocation") {
        Some(sl) => sl,
        None => {
            return Some(Err(missing("storageLocation")));
        },
    };
    let location = match VariableLocation::from_str(storage.as_str(), default) {
        Ok(loc) => loc,
        Err(e) => {
            return Some(Err(e));
        },
    };
    proof {
        reveal_strlit("storage");
        reveal_strlit("memory");
        reveal_strlit("stack");
        reveal_strlit("calldata");
        reveal_strlit("default");
    }
    assert(storage_location(storage@, default) == Some(location));
    match id {
        Some(i) => Some(
            Ok(
                Some(
                    Variable {
                        name,
                        id: i as u64,
                        state_variable: names_itself && location == VariableLocation::Storage,
                        location,
                        is_constant,
                        declared_type: clone_node(declared),
                    },
                ),
            ),
        ),
        None => {
            if names_itself {
                Some(Ok(None))
            } else {
                None
            }
        },
    }
}

/// The variable that a declaration node declares, as `build_debug_variable`
/// reads it; `None` where the tree is malformed (a declaration without its
/// type or constness, a statement that declares nothing or has no id).
pub fn build_debug_variable_checked(node: &AstNode, default_location: VariableLocation) -> (r: Option<
    Result<Option<Variable>, StatementVisitorError>,
>)
    ensures
        match variable_spec(*node, default_location) {
            Built::Read(None) => r matches Some(Ok(None)),
            Built::Read(Some(v)) => r matches Some(Ok(Some(x))) && var_is(x, v),
            Built::Failed(e) => r matches Some(Err(x)) && err_view(x) == e,
            Built::Malformed => r is None,
        },
{
    if let Some(name) = str_attribute(node, "name") {
        build_declared_variable(name.clone(), node, node.id, default_location, true)
    } else {
        let declarations = match nodes_attribute(node, "declarations") {
            Some(d) => d,
            None => {
                return Some(Ok(None));
            },
        };
        if declarations.len() == 0 {
            return None;
        }
        let declaration = &declarations[0];
        let name = match str_attribute(declaration, "name") {
            Some(n) => n,
            None => {
                return Some(Err(missing("name")));
            },
        };
        build_declared_variable(name.clone(), declaration, node.id, default_location, false)
    }
}

/// The variable that a declaration node declares.
pub fn build_debug_variable(node: &AstNode, default_location: VariableLocation) -> (r: Result<
    Option<Variable>,
    StatementVisitorError,
>)
    requires
        !(variable_spec(*node, default_location) is Malformed),
    ensures
        match variable_spec(*node, default_location) {
            Built::Read(None) => r matches Ok(None),
            Built::Read(Some(v)) => r matches Ok(Some(x)) && var_is(x, v),
            Built::Failed(e) => r matches Err(x) && err_view(x) == e,
            Built::Malformed => true,
        },
{
    match build_debug_variable_checked(node, default_location) {
        Some(r) => r,
        None => Err(StatementVisitorError::ParseError),
    }
}

/// The call is to a function that the compiler declares itself (its
/// `referencedDeclaration` is negative).
pub open spec fn call_skipped(n: AstNode) -> bool {
    match attr_node(n, "expression"@) {
        Some(e) => match attr_i32(e, "referencedDeclaration"@) {
            Some(d) => d < 0,
            None => false,
        },
        None => false,
    }
}

pub open spec fn concat_calls(a: Option<Seq<Instruction>>, b: Option<Seq<Instruction>>) -> Option<
    Seq<Instruction>,
> {
    match (a, b) {
        (Some(x), Some(y)) => Some(x + y),
        _ => None,
    }
}

/// The function calls in the expression `n`, outermost first and arguments in
/// order, each at the place `at` of the statement; `None` for a call whose
/// range has no length.
pub open spec fn expr_calls(n: AstNode, at: SourceLocation) -> Option<Seq<Instruction>>
    decreases n,
{
    proof {
        lemma_attr_node_decreases(n, "arguments"@);
        lemma_attr_node_decreases(n, "leftExpression"@);
        lemma_attr_node_decreases(n, "rightExpression"@);
        lemma_attr_node_decreases(n, "rightHandSide"@);
        lemma_attr_node_decreases(n, "subExpression"@);
        lemma_attr_node_decreases(n, "expression"@);
    }
    match n.node_type {
        NodeType::FunctionCall => if call_skipped(n) {
            Some(seq![])
        } else {
            match n.src.length {
                None => None,
                Some(len) => {
                    let head = seq![
                        Instruction {
                            location: at,
                            kind: InstructionKind::FunctionCall,
                            loc: SourceLocationHelper { start: n.src.start, length: len },
                        },
                    ];
                    match attr_nodes(n, "arguments"@) {
                        Some(args) => concat_calls(Some(head), args_calls(args, at)),
                        None => Some(head),
                    }
                },
            }
        },
        NodeType::BinaryOperation => concat_calls(
            match attr_node(n, "leftExpression"@) {
                Some(c) => expr_calls(c, at),
                None => Some(seq![]),
            },
            match attr_node(n, "rightExpression"@) {
                Some(c) => expr_calls(c, at),
                None => Some(seq![]),
            },
        ),
        NodeType::Assignment => match attr_node(n, "rightHandSide"@) {
            Some(c) => expr_calls(c, at),
            None => Some(seq![]),
        },
        NodeType::UnaryOperation => match attr_node(n, "subExpression"@) {
            Some(c) => expr_calls(c, at),
            None => Some(seq![]),
        },
        NodeType::MemberAccess | NodeType::IndexAccess => match attr_node(n, "expression"@) {
            Some(c) => expr_calls(c, at),
            None => Some(seq![]),
        },
        _ => Some(seq![]),
    }
}

/// The calls that an operand contributes: those of the expression, none where
/// the operand is missing.
pub open spec fn operand_calls(o: Option<AstNode>, at: SourceLocation) -> Option<Seq<Instruction>> {
    match o {
        Some(c) => expr_calls(c, at),
        None => Some(seq![]),
    }
}

/// The calls read from a binary operation are the calls of its left operand
/// followed by the calls of its right operand (a missing operand has none); the
/// operation can be read exactly where both operands can.
pub proof fn law_binary_operation_calls_left_then_right(n: AstNode, at: SourceLocation)
    requires
        n.node_type is BinaryOperation,
    ensures
        ({
            let l = operand_calls(attr_node(n, "leftExpression"@), at);
            let r = operand_calls(attr_node(n, "rightExpression"@), at);
            &&& expr_calls(n, at) is Some <==> (l is Some && r is Some)
            &&& expr_calls(n, at) is Some ==> expr_calls(n, at)->0 == l->0 + r->0
        }),
{
}

/// The calls read from a function call that is not skipped (one whose callee is
/// declared by the program) and whose range has a length are: the call itself,
/// at the place of the statement and over the range of the call, then the calls
/// of its arguments, argument by argument in order. A skipped call adds none,
/// and one without a length cannot be read.
pub proof fn law_function_call_comes_before_its_arguments(n: AstNode, at: SourceLocation)
    requires
        n.node_type is FunctionCall,
    ensures
        call_skipped(n) ==> expr_calls(n, at) == Some(Seq::<Instruction>::empty()),
        !call_skipped(n) && n.src.length is None ==> expr_calls(n, at) is None,
        !call_skipped(n) && n.src.length is Some ==> ({
            let me = Instruction {
                location: at,
                kind: InstructionKind::FunctionCall,
                loc: SourceLocationHelper { start: n.src.start, length: n.src.length->0 },
            };
            match attr_nodes(n, "arguments"@) {
                None => expr_calls(n, at) == Some(seq![me]),
                Some(args) => {
                    &&& expr_calls(n, at) is Some <==> args_calls(args, at) is Some
                    &&& expr_calls(n, at) is Some ==> expr_calls(n, at)->0 == seq![me] + args_calls(args, at)->0
                },
            }
        }),
{
}

/// The calls read from the arguments of a call are those of the arguments
/// before the last, then those of the last one.
pub proof fn law_argument_calls_in_order(args: Seq<AstNode>, at: SourceLocation)
    requires
        args.len() > 0,
    ensures
        args_calls(args, at) is Some <==> (args_calls(args.drop_last(), at) is Some && expr_calls(
            args.last(),
            at,
        ) is Some),
        args_calls(args, at) is Some ==> args_calls(args, at)->0 == args_calls(args.drop_last(), at)->0
            + expr_calls(args.last(), at)->0,
{
}

/// An assignment has the calls of its right-hand side, a unary operation those
/// of its operand, and a member or index access those of the expression it
/// accesses; a missing part has none.
pub proof fn law_nested_expression_calls(n: AstNode, at: SourceLocation)
    ensures
        n.node_type is Assignment ==> expr_calls(n, at) == operand_calls(attr_node(n, "rightHandSide"@), at),
        n.node_type is UnaryOperation ==> expr_calls(n, at) == operand_calls(attr_node(n, "subExpression"@), at),
        n.node_type is MemberAccess || n.node_type is IndexAccess ==> expr_calls(n, at) == operand_calls(
            attr_node(n, "expression"@),
            at,
        ),
{
}

/// The function calls in the expressions `args`, in order.
pub open spec fn args_calls(args: Seq<AstNode>, at: SourceLocation) -> Option<Seq<Instruction>>
    decreases args,
{
    if args.len() == 0 {
        Some(seq![])
    } else {
        concat_calls(args_calls(args.drop_last(), at), expr_calls(args.last(), at))
    }
}

/// Reads the debug information of one contract out of its syntax tree.
pub struct StatementVisitor {
    pub source: String,
    pub debug_unit: DebugUnit,
    /// whether the function being read is the constructor
    pub in_constructor: bool,
    /// the contract node being read
    pub contract_node: Option<AstNode>,
}

/// `b` holds what `a` held, with `calls` after its statements.
pub open spec fn with_calls(a: Block, b: Block, calls: Seq<Instruction>) -> bool {
    &&& b.instructions@ == a.instructions@ + calls
    &&& b.variables == a.variables
    &&& b.condition == a.condition
    &&& b.scopes == a.scopes
    &&& b.location == a.location
}

impl StatementVisitor {
    /// Adds to `block` a call statement for each function call in the expression
    /// `node`, at the place of the statement that holds it; a parse error where a
    /// call's range has no length.
    pub fn process_expression_for_function_calls(
        &self,
        node: &AstNode,
        block: &mut Block,
        block_location: &SourceLocation,
    ) -> (r: Result<(), StatementVisitorError>)
        ensures
            r is Ok <==> expr_calls(*node, *block_location) is Some,
            r matches Err(x) ==> x is ParseError,
            r is Ok ==> with_calls(*old(block), *final(block), expr_calls(*node, *block_location)->0),
    {
        if self.read_calls(node, block, block_location) {
            Ok(())
        } else {
            Err(StatementVisitorError::ParseError)
        }
    }

    /// Adds to `block` a call statement for each function call in the
    /// expression `node`; `false` where a call has a range without a length.
    fn read_calls(&self, node: &AstNode, block: &mut Block, block_location: &SourceLocation) -> (ok: bool)
        ensures
            ok == (expr_calls(*node, *block_location) is Some),
            ok ==> with_calls(*old(block), *final(block), expr_calls(*node, *block_location)->0),
        decreases node,
    {
        let ghost at = *block_location;
        let ghost before = block.instructions@;
        proof {
            lemma_attr_node_decreases(*node, "arguments"@);
            lemma_attr_node_decreases(*node, "leftExpression"@);
            lemma_attr_node_decreases(*node, "rightExpression"@);
            lemma_attr_node_decreases(*node, "rightHandSide"@);
            lemma_attr_node_decreases(*node, "subExpression"@);
            lemma_attr_node_decreases(*node, "expression"@);
        }
        match &node.node_type {
            NodeType::FunctionCall => {
                if let Some(expr) = node_attribute(node, "expression") {
                    if let Some(ref_decl) = i32_attribute(expr, "referencedDeclaration") {
                        if ref_decl < 0 {
                            assert(block.instructions@ =~= before + seq![]);
                            return true;
                        }
                    }
                }
                assert(!call_skipped(*node));
                let length = match node.src.length {
                    Some(l) => l,
                    None => {
                        return false;
                    },
                };
                block.instructions.push(
                    Instruction {
                        location: *block_location,
                        kind: InstructionKind::FunctionCall,
                        loc: SourceLocationHelper { start: node.src.start, length },
                    },
                );
                let ghost head = seq![
                    Instruction {
                        location: at,
                        kind: InstructionKind::FunctionCall,
                        loc: SourceLocationHelper { start: node.src.start, length },
                    },
                ];
                assert(block.instructions@ =~= before + head);
                if let Some(args) = nodes_attribute(node, "arguments") {
                    let n = args.len();
                    let mut i: usize = 0;
                    assert(args@.take(0) =~= Seq::<AstNode>::empty());
                    while i < n
                        invariant
                            n == args@.len(),
                            i <= n,
                            attr_nodes(*node, "arguments"@) == Some(args@),
                            forall|j: int| 0 <= j < args@.len() ==> decreases_to!(*node => args@[j]),
                            args_calls(args@.take(i as int), at) is Some,
                            block.instructions@ == before + head + args_calls(args@.take(i as int), at)->0,
                            block.variables == old(block).variables,
                            block.condition == old(block).condition,
                            block.scopes == old(block).scopes,
                            block.location == old(block).location,
                            *block_location == at,
                            expr_calls(*node, at) == concat_calls(Some(head), args_calls(args@, at)),
                        decreases n - i,
                    {
                        assert(args@.take(i + 1).drop_last() =~= args@.take(i as int));
                        assert(args@.take(i + 1).last() == args@[i as int]);
                        if !self.read_calls(&args[i], block, block_location) {
                            proof {
                                lemma_args_calls_stuck(args@, at, i as int + 1);
                            }
                            return false;
                        }
                        assert(block.instructions@ =~= before + head + args_calls(
                            args@.take(i + 1),
                            at,
                        )->0);
                        i = i + 1;
                    }
                    assert(args@.take(n as int) =~= args@);
                    assert(block.instructions@ =~= before + expr_calls(*node, at)->0);
                } else {
                    assert(block.instructions@ =~= before + expr_calls(*node, at)->0);
                }
                true
            },
            NodeType::BinaryOperation => {
                if let Some(left) = node_attribute(node, "leftExpression") {
                    if !self.read_calls(left, block, block_location) {
                        return false;
                    }
                }
                let ghost mid = block.instructions@;
                if let Some(right) = node_attribute(node, "rightExpression") {
                    if !self.read_calls(right, block, block_location) {
                        return false;
                    }
                }
                assert(block.instructions@ =~= before + expr_calls(*node, at)->0);
                true
            },
            NodeType::Assignment => {
                if let Some(right) = node_attribute(node, "rightHandSide") {
                    self.read_calls(right, block, block_location)
                } else {
                    assert(block.instructions@ =~= before + seq![]);
                    true
                }
            },
            NodeType::UnaryOperation => {
                if let Some(sub) = node_attribute(node, "subExpression") {
                    self.read_calls(sub, block, block_location)
                } else {
                    assert(block.instructions@ =~= before + seq![]);
                    true
                }
            },
            NodeType::MemberAccess | NodeType::IndexAccess => {
                if let Some(expr) = node_attribute(node, "expression") {
                    self.read_calls(expr, block, block_location)
                } else {
                    assert(block.instructions@ =~= before + seq![]);
                    true
                }
            },
            _ => {
                assert(block.instructions@ =~= before + seq![]);
                true
            },
        }
    }
}

/// Where the calls of the first `k` arguments cannot be read, those of all
/// cannot.
proof fn lemma_args_calls_stuck(args: Seq<AstNode>, at: SourceLocation, k: int)
    requires
        0 < k <= args.len(),
        args_calls(args.take(k - 1), at) is Some,
        expr_calls(args[k - 1], at) is None,
    ensures
        args_calls(args, at) is None,
{
    assert(args.take(k).drop_last() =~= args.take(k - 1));
    assert(args.take(k).last() == args[k - 1]);
    lemma_args_calls_none_extends(args, at, k);
}

proof fn lemma_args_calls_none_extends(args: Seq<AstNode>, at: SourceLocation, k: int)
    requires
        0 <= k <= args.len(),
        args_calls(args.take(k), at) is None,
    ensures
        args_calls(args, at) is None,
    decreases args.len() - k,
{
    if k < args.len() {
        assert(args.take(k + 1).drop_last() =~= args.take(k));
        lemma_args_calls_none_extends(args, at, k + 1);
    } else {
        assert(args.take(k) =~= args);
    }
}

/// Where the calls of all the arguments are read, so are those of the first ones.
proof fn lemma_args_calls_prefix(args: Seq<AstNode>, at: SourceLocation, k: int)
    requires
        0 <= k <= args.len(),
        args_calls(args, at) is Some,
    ensures
        args_calls(args.take(k), at) is Some,
        k > 0 ==> expr_calls(args[k - 1], at) is Some,
    decreases args.len() - k,
{
    if k < args.len() {
        lemma_args_calls_prefix(args, at, k + 1);
        assert(args.take(k + 1).drop_last() =~= args.take(k));
    } else {
        assert(args.take(k) =~= args);
    }
    if k > 0 {
        assert(args.take(k).drop_last() =~= args.take(k - 1));
        assert(args.take(k).last() == args[k - 1]);
    }
}

/// A block as plain values.
pub struct BlockSpec {
    pub variables: Seq<usize>,
    pub condition: Option<Instruction>,
    pub instructions: Seq<Instruction>,
    pub scopes: Seq<BlockSpec>,
    pub location: SourceLocation,
}

pub open spec fn block_is(b: Block, s: BlockSpec) -> bool
    decreases b,
{
    &&& b.variables@ == s.variables
    &&& b.condition == s.condition
    &&& b.instructions@ == s.instructions
    &&& b.location == s.location
    &&& {
        proof {
            assert(decreases_to!(b => b.scopes));
            assert(decreases_to!(b.scopes => b.scopes@));
        }
        blocks_are(b.scopes@, s.scopes)
    }
}

pub open spec fn blocks_are(b: Seq<Block>, s: Seq<BlockSpec>) -> bool
    decreases b,
{
    &&& b.len() == s.len()
    &&& b.len() > 0 ==> blocks_are(b.drop_last(), s.drop_last()) && block_is(b.last(), s.last())
}

/// The block of no statements at the start of a file.
pub open spec fn empty_block() -> BlockSpec {
    BlockSpec {
        variables: seq![],
        condition: None,
        instructions: seq![],
        scopes: seq![],
        location: SourceLocation {
            line: 0,
            column: 0,
            end_line: None,
            end_column: None,
            start_offset: 0,
            length: None,
        },
    }
}

/// A statement of the range of `n`, at its place in the source.
pub open spec fn statement_at(src: Seq<u8>, n: AstNode, kind: InstructionKind) -> Option<Instruction> {
    if location_ok(src, n.src) && n.src.length is Some {
        Some(
            Instruction {
                location: location_for(src, n.src),
                kind,
                loc: SourceLocationHelper { start: n.src.start, length: n.src.length->0 },
            },
        )
    } else {
        None
    }
}

/// The parameters `ps`, read in order, each as a variable that is not a state
/// variable.
pub open spec fn params_fold(ps: Seq<AstNode>) -> Built<Seq<VarSpec>>
    decreases ps.len(),
{
    if ps.len() == 0 {
        Built::Read(seq![])
    } else {
        match params_fold(ps.drop_last()) {
            Built::Read(acc) => {
                let p = ps.last();
                if !(p.node_type is VariableDeclaration) {
                    Built::Failed(ErrView::IncorrectType("VariableDeclaration"@, node_type_name(p.node_type)))
                } else {
                    match variable_spec(p, VariableLocation::Stack) {
                        Built::Read(Some(v)) => Built::Read(acc.push(VarSpec { state_variable: false, ..v })),
                        Built::Read(None) => Built::Read(acc),
                        Built::Failed(e) => Built::Failed(e),
                        Built::Malformed => Built::Malformed,
                    }
                }
            },
            other => other,
        }
    }
}

/// The parameters of a function (or of a catch clause) `n`: its attribute
/// `parameters`, a parameter list of variable declarations.
pub open spec fn params_spec(n: AstNode) -> Built<Seq<VarSpec>> {
    match attr_node(n, "parameters"@) {
        None => Built::Failed(ErrView::MissingAttribute("parameters"@)),
        Some(list) => if !(list.node_type is ParameterList) {
            Built::Failed(ErrView::IncorrectType("ParameterList"@, node_type_name(list.node_type)))
        } else {
            match attr_nodes(list, "parameters"@) {
                None => Built::Failed(ErrView::MissingAttribute("parameters"@)),
                Some(ps) => params_fold(ps),
            }
        },
    }
}

/// The block that the syntax tree node `n` is, and the variables that it and the
/// blocks in it declare, in order.
pub open spec fn block_spec(src: Seq<u8>, n: AstNode) -> Built<(BlockSpec, Seq<VarSpec>)>
    decreases n, 0int,
{
    if !location_ok(src, n.src) {
        Built::Malformed
    } else {
        let start = BlockSpec { location: location_for(src, n.src), ..empty_block() };
        proof {
            lemma_attr_node_decreases(n, "statements"@);
        }
        match attr_nodes(n, "statements"@) {
            Some(stmts) => stmts_spec(src, stmts, start),
            None => Built::Read((start, seq![])),
        }
    }
}

/// The block `start` with the statements `stmts` read into it, in order.
pub open spec fn stmts_spec(src: Seq<u8>, stmts: Seq<AstNode>, start: BlockSpec) -> Built<
    (BlockSpec, Seq<VarSpec>),
>
    decreases stmts, 0int,
{
    if stmts.len() == 0 {
        Built::Read((start, seq![]))
    } else {
        match stmts_spec(src, stmts.drop_last(), start) {
            Built::Read((b, vs)) => match stmt_spec(src, stmts.last(), b) {
                Built::Read((b2, vs2)) => Built::Read((b2, vs + vs2)),
                Built::Failed(e) => Built::Failed(e),
                Built::Malformed => Built::Malformed,
            },
            other => other,
        }
    }
}

/// The block `b` with the statement `st` read into it: its calls and the
/// statement itself, the blocks of an `if`/`else` chain, a loop body with its
/// condition, a declaration, or a `try` with its catch clauses.
pub open spec fn stmt_spec(src: Seq<u8>, st: AstNode, b: BlockSpec) -> Built<(BlockSpec, Seq<VarSpec>)>
    decreases st, 2int,
{
    proof {
        lemma_attr_node_decreases(st, "clauses"@);
    }
    match st.node_type {
        NodeType::ExpressionStatement => if !location_ok(src, st.src) {
            Built::Malformed
        } else {
            let at = location_for(src, st.src);
            let calls = match attr_node(st, "expression"@) {
                Some(e) => expr_calls(e, at),
                None => Some(seq![]),
            };
            match (calls, statement_at(src, st, InstructionKind::Statement)) {
                (Some(cs), Some(inst)) => Built::Read(
                    (BlockSpec { instructions: b.instructions + cs + seq![inst], ..b }, seq![]),
                ),
                _ => Built::Malformed,
            }
        },
        NodeType::IfStatement => match if_chain_spec(src, st) {
            Built::Read((blocks, vs)) => Built::Read((BlockSpec { scopes: b.scopes + blocks, ..b }, vs)),
            Built::Failed(e) => Built::Failed(e),
            Built::Malformed => Built::Malformed,
        },
        NodeType::ForStatement => match st.body {
            None => Built::Read((b, seq![])),
            Some(body) => match block_spec(src, *body) {
                Built::Read((fb, vs)) => match attr_node(st, "condition"@) {
                    Some(c) => match statement_at(src, c, InstructionKind::Statement) {
                        Some(cond) => Built::Read(
                            (
                                BlockSpec {
                                    scopes: b.scopes.push(BlockSpec { condition: Some(cond), ..fb }),
                                    ..b
                                },
                                vs,
                            ),
                        ),
                        None => Built::Malformed,
                    },
                    None => Built::Read((BlockSpec { scopes: b.scopes.push(fb), ..b }, vs)),
                },
                Built::Failed(e) => Built::Failed(e),
                Built::Malformed => Built::Malformed,
            },
        },
        NodeType::VariableDeclarationStatement => match variable_spec(st, VariableLocation::Stack) {
            Built::Read(None) => Built::Read((b, seq![])),
            Built::Read(Some(v)) => match statement_at(
                src,
                st,
                InstructionKind::VariableDeclaration(v.id as usize),
            ) {
                None => Built::Malformed,
                Some(inst) => {
                    let b2 = BlockSpec {
                        variables: b.variables.push(v.id as usize),
                        instructions: b.instructions.push(inst),
                        ..b
                    };
                    match attr_node(st, "initialValue"@) {
                        None => Built::Read((b2, seq![v])),
                        Some(init) => match expr_calls(init, inst.location) {
                            None => Built::Malformed,
                            Some(cs) => Built::Read(
                                (BlockSpec { instructions: b2.instructions + cs, ..b2 }, seq![v]),
                            ),
                        },
                    }
                },
            },
            Built::Failed(e) => Built::Failed(e),
            Built::Malformed => Built::Malformed,
        },
        NodeType::TryStatement => match attr_node(st, "externalCall"@) {
            None => Built::Failed(ErrView::MissingAttribute("externalCall"@)),
            Some(ext) => if !location_ok(src, st.src) {
                Built::Malformed
            } else {
                let at = location_for(src, st.src);
                match expr_calls(ext, at) {
                    None => Built::Malformed,
                    Some(cs) => {
                        let catches = match attr_nodes(st, "clauses"@) {
                            Some(c) => clauses_spec(src, c),
                            None => Built::Read((seq![], seq![])),
                        };
                        match catches {
                            Built::Read((cbs, vs)) => Built::Read(
                                (
                                    BlockSpec {
                                        instructions: b.instructions + cs,
                                        scopes: b.scopes.push(
                                            BlockSpec { scopes: cbs, location: at, ..empty_block() },
                                        ),
                                        ..b
                                    },
                                    vs,
                                ),
                            ),
                            Built::Failed(e) => Built::Failed(e),
                            Built::Malformed => Built::Malformed,
                        }
                    },
                }
            },
        },
        _ => match statement_at(src, st, InstructionKind::Statement) {
            Some(inst) => Built::Read((BlockSpec { instructions: b.instructions.push(inst), ..b }, seq![])),
            None => Built::Malformed,
        },
    }
}

/// The block of the `if` branch of `cur`, with its condition.
pub open spec fn if_first(src: Seq<u8>, cur: AstNode) -> Built<(Seq<BlockSpec>, Seq<VarSpec>)>
    decreases cur, 0int,
{
    proof {
        lemma_attr_node_decreases(cur, "trueBody"@);
    }
    match attr_node(cur, "trueBody"@) {
        Some(tb) => match block_spec(src, tb) {
            Built::Read((bb, vs)) => match attr_node(cur, "condition"@) {
                Some(c) => match statement_at(src, c, InstructionKind::Statement) {
                    Some(cond) => Built::Read((seq![BlockSpec { condition: Some(cond), ..bb }], vs)),
                    None => Built::Malformed,
                },
                None => Built::Read((seq![bb], vs)),
            },
            Built::Failed(e) => Built::Failed(e),
            Built::Malformed => Built::Malformed,
        },
        None => Built::Read((seq![], seq![])),
    }
}

/// The blocks of the `if`/`else if`/`else` chain that starts at `cur`, each
/// `if` block with its condition.
pub open spec fn if_chain_spec(src: Seq<u8>, cur: AstNode) -> Built<(Seq<BlockSpec>, Seq<VarSpec>)>
    decreases cur, 1int,
{
    proof {
        lemma_attr_node_decreases(cur, "trueBody"@);
        lemma_attr_node_decreases(cur, "falseBody"@);
    }
    match if_first(src, cur) {
        Built::Read((bs, vs)) => match attr_node(cur, "falseBody"@) {
            Some(fb) => if fb.node_type is IfStatement {
                match if_chain_spec(src, fb) {
                    Built::Read((bs2, vs2)) => Built::Read((bs + bs2, vs + vs2)),
                    Built::Failed(e) => Built::Failed(e),
                    Built::Malformed => Built::Malformed,
                }
            } else {
                match block_spec(src, fb) {
                    Built::Read((eb, vs2)) => Built::Read((bs.push(eb), vs + vs2)),
                    Built::Failed(e) => Built::Failed(e),
                    Built::Malformed => Built::Malformed,
                }
            },
            None => Built::Read((bs, vs)),
        },
        other => other,
    }
}

/// The blocks of the catch clauses `cs`, each with its parameters as its
/// variables, and the variables they declare (parameters first).
pub open spec fn clauses_spec(src: Seq<u8>, cs: Seq<AstNode>) -> Built<(Seq<BlockSpec>, Seq<VarSpec>)>
    decreases cs, 0int,
{
    if cs.len() == 0 {
        Built::Read((seq![], seq![]))
    } else {
        match clauses_spec(src, cs.drop_last()) {
            Built::Read((bs, vs)) => {
                let c = cs.last();
                proof {
                    lemma_attr_node_decreases(c, "block"@);
                }
                match attr_node(c, "block"@) {
                    None => Built::Failed(ErrView::MissingAttribute("block"@)),
                    Some(blk) => {
                        let params = if attr_node(c, "parameters"@) is Some {
                            params_spec(c)
                        } else {
                            Built::Read(seq![])
                        };
                        match params {
                            Built::Read(ps) => match block_spec(src, blk) {
                                Built::Read((bb, vs2)) => Built::Read(
                                    (
                                        bs.push(
                                            BlockSpec {
                                                variables: ps.map_values(|p: VarSpec| p.id as usize),
                                                ..bb
                                            },
                                        ),
                                        vs + ps + vs2,
                                    ),
                                ),
                                Built::Failed(e) => Built::Failed(e),
                                Built::Malformed => Built::Malformed,
                            },
                            Built::Failed(e) => Built::Failed(e),
                            Built::Malformed => Built::Malformed,
                        }
                    },
                }
            },
            other => other,
        }
    }
}

/// The bytes of the source that a visitor reads.
pub open spec fn src_of(v: StatementVisitor) -> Seq<u8> {
    encode_utf8(v.source@)
}

/// `b` holds the variables of `a`, then variables that are those of `added`.
pub open spec fn appended(a: Seq<Variable>, b: Seq<Variable>, added: Seq<VarSpec>) -> bool {
    &&& b.len() == a.len() + added.len()
    &&& b.take(a.len() as int) == a
    &&& forall|i: int| 0 <= i < added.len() ==> var_is(#[trigger] b[a.len() + i], added[i])
}

/// `b` is `a` but for the variables that its unit lists.
pub open spec fn keeps(a: StatementVisitor, b: StatementVisitor) -> bool {
    b == StatementVisitor {
        debug_unit: DebugUnit { variables: b.debug_unit.variables, ..a.debug_unit },
        ..a
    }
}

proof fn lemma_appended_trans(a: Seq<Variable>, b: Seq<Variable>, c: Seq<Variable>, x: Seq<VarSpec>, y: Seq<VarSpec>)
    requires
        appended(a, b, x),
        appended(b, c, y),
    ensures
        appended(a, c, x + y),
{
    assert(c.take(a.len() as int) =~= a) by {
        assert forall|i: int| 0 <= i < a.len() implies c[i] == a[i] by {
            assert(c.take(b.len() as int)[i] == b[i]);
            assert(b.take(a.len() as int)[i] == a[i]);
        }
    }
    assert forall|i: int| 0 <= i < (x + y).len() implies var_is(#[trigger] c[a.len() + i], (x + y)[i]) by {
        if i < x.len() {
            assert(c.take(b.len() as int)[a.len() + i] == b[a.len() + i]);
            assert(var_is(b[a.len() + i], x[i]));
        } else {
            assert(var_is(c[b.len() + (i - x.len())], y[i - x.len()]));
        }
    }
}

proof fn lemma_appended_none(a: Seq<Variable>)
    ensures
        appended(a, a, seq![]),
{
    assert(a.take(a.len() as int) =~= a);
}

proof fn lemma_appended_push(a: Seq<Variable>, v: Variable, s: VarSpec)
    requires
        var_is(v, s),
    ensures
        appended(a, a.push(v), seq![s]),
{
    assert(a.push(v).take(a.len() as int) =~= a);
    assert(a.push(v)[a.len() as int] == v);
}

proof fn lemma_var_is_clone(a: Variable, b: Variable, s: VarSpec)
    requires
        crate::debugger::tracer::same_variable(a, b),
        var_is(b, s),
    ensures
        var_is(a, s),
{
    crate::debugger::ast::lemma_same_node_trans(a.declared_type, b.declared_type, s.type_node);
}

proof fn lemma_params_fold_stuck(ps: Seq<AstNode>, k: int)
    requires
        0 <= k <= ps.len(),
        !(params_fold(ps.take(k)) is Read),
    ensures
        params_fold(ps) == params_fold(ps.take(k)),
    decreases ps.len() - k,
{
    if k < ps.len() {
        assert(ps.take(k + 1).drop_last() =~= ps.take(k));
        lemma_params_fold_stuck(ps, k + 1);
    } else {
        assert(ps.take(k) =~= ps);
    }
}

impl StatementVisitor {
    /// The parameters of the function (or catch clause) `node`, which are also
    /// added to the variables of the unit.
    pub fn build_debug_parameters(&mut self, node: &AstNode) -> (r: Result<
        Vec<Variable>,
        StatementVisitorError,
    >)
        ensures
            keeps(*old(self), *final(self)),
            match params_spec(*node) {
                Built::Read(ps) => r matches Ok(v) && vars_are(v@, ps) && appended(
                    old(self).debug_unit.variables@,
                    final(self).debug_unit.variables@,
                    ps,
                ),
                Built::Failed(e) => r matches Err(x) && err_view(x) == e,
                Built::Malformed => r matches Err(x) && x is ParseError,
            },
    {
        let parameters_list = match node_attribute(node, "parameters") {
            Some(l) => l,
            None => {
                return Err(missing("parameters"));
            },
        };
        if !matches!(parameters_list.node_type, NodeType::ParameterList) {
            return Err(
                StatementVisitorError::IncorrectType(
                    "ParameterList".to_owned(),
                    parameters_list.node_type.name(),
                ),
            );
        }
        let params = match nodes_attribute(parameters_list, "parameters") {
            Some(p) => p,
            None => {
                return Err(missing("parameters"));
            },
        };
        let ghost old_vars = self.debug_unit.variables@;
        let ghost start = *self;
        let mut parameters: Vec<Variable> = Vec::new();
        let n = params.len();
        let mut i: usize = 0;
        proof {
            lemma_appended_none(old_vars);
            assert(params@.take(0) =~= Seq::<AstNode>::empty());
        }
        while i < n
            invariant
                n == params@.len(),
                i <= n,
                keeps(start, *self),
                start == *old(self),
                params_spec(*node) == params_fold(params@),
                params_fold(params@.take(i as int)) matches Built::Read(acc) && vars_are(parameters@, acc)
                    && appended(old_vars, self.debug_unit.variables@, acc),
            decreases n - i,
        {
            let ghost acc = params_fold(params@.take(i as int))->Read_0;
            assert(params@.take(i + 1).drop_last() =~= params@.take(i as int));
            assert(params@.take(i + 1).last() == params@[i as int]);
            let param = &params[i];
            if !matches!(param.node_type, NodeType::VariableDeclaration) {
                proof {
                    lemma_params_fold_stuck(params@, i as int + 1);
                }
                return Err(
                    StatementVisitorError::IncorrectType(
                        "VariableDeclaration".to_owned(),
                        param.node_type.name(),
                    ),
                );
            }
            proof {
                if !(params_fold(params@.take(i + 1)) is Read) {
                    lemma_params_fold_stuck(params@, i as int + 1);
                }
            }
            match build_debug_variable_checked(param, VariableLocation::Stack) {
                Some(Ok(Some(var))) => {
                    let ghost vs = variable_spec(*param, VariableLocation::Stack)->Read_0->Some_0;
                    let mut var = var;
                    var.state_variable = false;
                    let ghost spec = VarSpec { state_variable: false, ..vs };
                    let copy = crate::debugger::tracer::clone_variable(&var);
                    let ghost before = self.debug_unit.variables@;
                    proof {
                        lemma_var_is_clone(copy, var, spec);
                        lemma_appended_push(before, copy, spec);
                        lemma_appended_trans(old_vars, before, before.push(copy), acc, seq![spec]);
                        assert(acc + seq![spec] =~= acc.push(spec));
                    }
                    self.debug_unit.variables.push(copy);
                    parameters.push(var);
                },
                Some(Ok(None)) => {},
                Some(Err(e)) => {
                    proof {
                        lemma_params_fold_stuck(params@, i as int + 1);
                    }
                    return Err(e);
                },
                None => {
                    proof {
                        lemma_params_fold_stuck(params@, i as int + 1);
                    }
                    return Err(StatementVisitorError::ParseError);
                },
            }
            i = i + 1;
        }
        assert(params@.take(n as int) =~= params@);
        Ok(parameters)
    }
}


/// What a read of one block leaves, against what `s` says of it.
pub open spec fn block_outcome(
    s: Built<(BlockSpec, Seq<VarSpec>)>,
    r: Result<Block, StatementVisitorError>,
    before: Seq<Variable>,
    after: Seq<Variable>,
) -> bool {
    match s {
        Built::Read((bs, vs)) => r matches Ok(b) && block_is(b, bs) && appended(before, after, vs),
        Built::Failed(e) => r matches Err(x) && err_view(x) == e,
        Built::Malformed => r matches Err(x) && x is ParseError,
    }
}

/// What a read of several blocks leaves, against what `s` says of them.
pub open spec fn blocks_outcome(
    s: Built<(Seq<BlockSpec>, Seq<VarSpec>)>,
    r: Result<Vec<Block>, StatementVisitorError>,
    before: Seq<Variable>,
    after: Seq<Variable>,
) -> bool {
    match s {
        Built::Read((bs, vs)) => r matches Ok(b) && blocks_are(b@, bs) && appended(before, after, vs),
        Built::Failed(e) => r matches Err(x) && err_view(x) == e,
        Built::Malformed => r matches Err(x) && x is ParseError,
    }
}

proof fn lemma_blocks_push(a: Seq<Block>, b: Block, sa: Seq<BlockSpec>, sb: BlockSpec)
    requires
        blocks_are(a, sa),
        block_is(b, sb),
    ensures
        blocks_are(a.push(b), sa.push(sb)),
{
    assert(a.push(b).drop_last() =~= a);
    assert(sa.push(sb).drop_last() =~= sa);
}

proof fn lemma_blocks_append(a: Seq<Block>, b: Seq<Block>, sa: Seq<BlockSpec>, sb: Seq<BlockSpec>)
    requires
        blocks_are(a, sa),
        blocks_are(b, sb),
    ensures
        blocks_are(a + b, sa + sb),
    decreases b.len(),
{
    if b.len() == 0 {
        assert(a + b =~= a);
        assert(sa + sb =~= sa);
    } else {
        lemma_blocks_append(a, b.drop_last(), sa, sb.drop_last());
        lemma_blocks_push(a + b.drop_last(), b.last(), sa + sb.drop_last(), sb.last());
        assert(a + b =~= (a + b.drop_last()).push(b.last()));
        assert(sa + sb =~= (sa + sb.drop_last()).push(sb.last()));
    }
}

proof fn lemma_blocks_empty()
    ensures
        blocks_are(Seq::<Block>::empty(), Seq::<BlockSpec>::empty()),
{
}

proof fn lemma_stmts_stuck(src: Seq<u8>, stmts: Seq<AstNode>, start: BlockSpec, k: int)
    requires
        0 <= k <= stmts.len(),
        !(stmts_spec(src, stmts.take(k), start) is Read),
    ensures
        stmts_spec(src, stmts, start) == stmts_spec(src, stmts.take(k), start),
    decreases stmts.len() - k,
{
    if k < stmts.len() {
        assert(stmts.take(k + 1).drop_last() =~= stmts.take(k));
        lemma_stmts_stuck(src, stmts, start, k + 1);
    } else {
        assert(stmts.take(k) =~= stmts);
    }
}

proof fn lemma_clauses_stuck(src: Seq<u8>, cs: Seq<AstNode>, k: int)
    requires
        0 <= k <= cs.len(),
        !(clauses_spec(src, cs.take(k)) is Read),
    ensures
        clauses_spec(src, cs) == clauses_spec(src, cs.take(k)),
    decreases cs.len() - k,
{
    if k < cs.len() {
        assert(cs.take(k + 1).drop_last() =~= cs.take(k));
        lemma_clauses_stuck(src, cs, k + 1);
    } else {
        assert(cs.take(k) =~= cs);
    }
}

impl StatementVisitor {
    /// The statement of the range of `n`, at its place in the source; `None`
    /// where the range has no length or cannot be cut out of the source.
    fn statement_instruction(&self, n: &AstNode, kind: InstructionKind) -> (r: Option<Instruction>)
        ensures
            r == statement_at(src_of(*self), *n, kind),
    {
        if !location_ok_exec(self.source.as_str(), &n.src) {
            return None;
        }
        match n.src.length {
            Some(length) => Some(
                Instruction {
                    location: source_location_for(self.source.as_str(), &n.src),
                    kind,
                    loc: SourceLocationHelper { start: n.src.start, length },
                },
            ),
            None => None,
        }
    }

    /// The place of the range `loc` in the source, where it can be cut out.
    fn location_checked(&self, loc: &AstSource) -> (r: Option<SourceLocation>)
        ensures
            location_ok(src_of(*self), *loc) ==> r == Some(location_for(src_of(*self), *loc)),
            !location_ok(src_of(*self), *loc) ==> r is None,
    {
        if location_ok_exec(self.source.as_str(), loc) {
            Some(source_location_for(self.source.as_str(), loc))
        } else {
            None
        }
    }

    /// The block that `node` is: its place, and its statements read in order.
    /// The variables that it declares are added to those of the unit.
    pub fn build_debug_block(&mut self, node: &AstNode) -> (r: Result<Block, StatementVisitorError>)
        ensures
            keeps(*old(self), *final(self)),
            block_outcome(
                block_spec(src_of(*old(self)), *node),
                r,
                old(self).debug_unit.variables@,
                final(self).debug_unit.variables@,
            ),
        decreases node, 0int,
    {
        let ghost src = src_of(*self);
        let ghost start_self = *self;
        let ghost v0 = self.debug_unit.variables@;
        let location = match self.location_checked(&node.src) {
            Some(l) => l,
            None => {
                return Err(StatementVisitorError::ParseError);
            },
        };
        let ghost start = BlockSpec { location, ..empty_block() };
        let mut block = Block {
            variables: Vec::new(),
            condition: None,
            instructions: Vec::new(),
            scopes: Vec::new(),
            location,
        };
        proof {
            lemma_attr_node_decreases(*node, "statements"@);
            lemma_appended_none(v0);
            lemma_blocks_empty();
            assert(block.scopes@ =~= Seq::<Block>::empty());
            assert(block_is(block, start));
        }
        let statements = match nodes_attribute(node, "statements") {
            Some(s) => s,
            None => {
                return Ok(block);
            },
        };
        let n = statements.len();
        let mut i: usize = 0;
        proof {
            assert(statements@.take(0) =~= Seq::<AstNode>::empty());
        }
        while i < n
            invariant
                n == statements@.len(),
                i <= n,
                start_self == *old(self),
                keeps(start_self, *self),
                src == src_of(start_self),
                v0 == start_self.debug_unit.variables@,
                block_spec(src, *node) == stmts_spec(src, statements@, start),
                forall|j: int| 0 <= j < statements@.len() ==> decreases_to!(*node => statements@[j]),
                stmts_spec(src, statements@.take(i as int), start) matches Built::Read((bs, vs))
                    && block_is(block, bs) && appended(v0, self.debug_unit.variables@, vs),
            decreases n - i,
        {
            let ghost bs = stmts_spec(src, statements@.take(i as int), start)->Read_0.0;
            let ghost vs = stmts_spec(src, statements@.take(i as int), start)->Read_0.1;
            let ghost before = self.debug_unit.variables@;
            assert(statements@.take(i + 1).drop_last() =~= statements@.take(i as int));
            assert(statements@.take(i + 1).last() == statements@[i as int]);
            proof {
                if !(stmts_spec(src, statements@.take(i + 1), start) is Read) {
                    lemma_stmts_stuck(src, statements@, start, i + 1);
                }
            }
            match self.process_statement(&statements[i], &mut block, Ghost(bs)) {
                Ok(()) => {},
                Err(e) => {
                    return Err(e);
                },
            }
            proof {
                let vs2 = stmt_spec(src, statements@[i as int], bs)->Read_0.1;
                lemma_appended_trans(v0, before, self.debug_unit.variables@, vs, vs2);
            }
            i = i + 1;
        }
        assert(statements@.take(n as int) =~= statements@);
        Ok(block)
    }

    /// Reads the statement `st` into `block`, whose contents are `bs`.
    fn process_statement(&mut self, st: &AstNode, block: &mut Block, Ghost(bs): Ghost<BlockSpec>) -> (r:
        Result<(), StatementVisitorError>)
        requires
            block_is(*old(block), bs),
        ensures
            keeps(*old(self), *final(self)),
            match stmt_spec(src_of(*old(self)), *st, bs) {
                Built::Read((b2, vs)) => r is Ok && block_is(*final(block), b2) && appended(
                    old(self).debug_unit.variables@,
                    final(self).debug_unit.variables@,
                    vs,
                ),
                Built::Failed(e) => r matches Err(x) && err_view(x) == e,
                Built::Malformed => r matches Err(x) && x is ParseError,
            },
        decreases st, 2int,
    {
        let ghost src = src_of(*self);
        let ghost v0 = self.debug_unit.variables@;
        proof {
            lemma_attr_node_decreases(*st, "clauses"@);
            lemma_attr_node_decreases(*st, "expression"@);
            lemma_attr_node_decreases(*st, "initialValue"@);
            lemma_attr_node_decreases(*st, "externalCall"@);
            lemma_attr_node_decreases(*st, "condition"@);
            lemma_appended_none(v0);
        }
        match &st.node_type {
            NodeType::ExpressionStatement => {
                let inst = match self.statement_instruction(st, InstructionKind::Statement) {
                    Some(i) => i,
                    None => {
                        return Err(StatementVisitorError::ParseError);
                    },
                };
                let at = inst.location;
                if let Some(expr) = node_attribute(st, "expression") {
                    if self.process_expression_for_function_calls(expr, block, &at).is_err() {
                        return Err(StatementVisitorError::ParseError);
                    }
                } else {
                    assert(block.instructions@ =~= old(block).instructions@ + seq![]);
                }
                let ghost mid = block.instructions@;
                block.instructions.push(inst);
                assert(block.instructions@ =~= mid + seq![inst]);
                Ok(())
            },
            NodeType::IfStatement => {
                let mut blocks = match self.flatten_if_else_chain(st) {
                    Ok(b) => b,
                    Err(e) => {
                        return Err(e);
                    },
                };
                let ghost added = blocks@;
                proof {
                    let bss = if_chain_spec(src, *st)->Read_0.0;
                    lemma_blocks_append(block.scopes@, blocks@, bs.scopes, bss);
                }
                block.scopes.append(&mut blocks);
                Ok(())
            },
            NodeType::ForStatement => {
                match &st.body {
                    None => {
                        Ok(())
                    },
                    Some(body) => {
                        assert(decreases_to!(*st => **body));
                        let mut fb = match self.build_debug_block(&**body) {
                            Ok(b) => b,
                            Err(e) => {
                                return Err(e);
                            },
                        };
                        if let Some(c) = node_attribute(st, "condition") {
                            match self.statement_instruction(c, InstructionKind::Statement) {
                                Some(cond) => {
                                    fb.condition = Some(cond);
                                },
                                None => {
                                    return Err(StatementVisitorError::ParseError);
                                },
                            }
                        }
                        proof {
                            let b2 = stmt_spec(src, *st, bs)->Read_0.0;
                            lemma_blocks_push(block.scopes@, fb, bs.scopes, b2.scopes.last());
                        }
                        block.scopes.push(fb);
                        Ok(())
                    },
                }
            },
            NodeType::VariableDeclarationStatement => {
                match build_debug_variable_checked(st, VariableLocation::Stack) {
                    None => Err(StatementVisitorError::ParseError),
                    Some(Err(e)) => Err(e),
                    Some(Ok(None)) => Ok(()),
                    Some(Ok(Some(var))) => {
                        let ghost spec = variable_spec(*st, VariableLocation::Stack)->Read_0->Some_0;
                        let id = var.id as usize;
                        let inst = match self.statement_instruction(st, InstructionKind::VariableDeclaration(id)) {
                            Some(i) => i,
                            None => {
                                return Err(StatementVisitorError::ParseError);
                            },
                        };
                        proof {
                            lemma_appended_push(v0, var, spec);
                        }
                        self.debug_unit.variables.push(var);
                        block.variables.push(id);
                        block.instructions.push(inst);
                        if let Some(init) = node_attribute(st, "initialValue") {
                            let at = inst.location;
                            if !self.read_calls(init, block, &at) {
                                return Err(StatementVisitorError::ParseError);
                            }
                        }
                        proof {
                            let b2 = bs.instructions.push(inst);
                            assert(bs.variables.push(id) == block.variables@);
                            if attr_node(*st, "initialValue"@) is None {
                                assert(block.instructions@ == b2);
                            }
                        }
                        Ok(())
                    },
                }
            },
            NodeType::TryStatement => {
                let ext = match node_attribute(st, "externalCall") {
                    Some(e) => e,
                    None => {
                        return Err(missing("externalCall"));
                    },
                };
                let at = match self.location_checked(&st.src) {
                    Some(l) => l,
                    None => {
                        return Err(StatementVisitorError::ParseError);
                    },
                };
                if !self.read_calls(ext, block, &at) {
                    return Err(StatementVisitorError::ParseError);
                }
                let catch_blocks = match nodes_attribute(st, "clauses") {
                    Some(clauses) => match self.build_catch_blocks(st, clauses) {
                        Ok(b) => b,
                        Err(e) => {
                            return Err(e);
                        },
                    },
                    None => {
                        proof {
                            lemma_blocks_empty();
                        }
                        Vec::new()
                    },
                };
                let ghost cbs = stmt_spec(src, *st, bs)->Read_0.0.scopes.last().scopes;
                let scope = Block {
                    variables: Vec::new(),
                    condition: None,
                    instructions: Vec::new(),
                    scopes: catch_blocks,
                    location: at,
                };
                proof {
                    let b2 = stmt_spec(src, *st, bs)->Read_0.0;
                    assert(scope.variables@ =~= Seq::<usize>::empty());
                    assert(scope.instructions@ =~= Seq::<Instruction>::empty());
                    lemma_blocks_push(block.scopes@, scope, bs.scopes, b2.scopes.last());
                }
                block.scopes.push(scope);
                Ok(())
            },
            _ => match self.statement_instruction(st, InstructionKind::Statement) {
                Some(inst) => {
                    block.instructions.push(inst);
                    Ok(())
                },
                None => Err(StatementVisitorError::ParseError),
            },
        }
    }

    /// The blocks of the catch clauses `clauses` of the `try` statement `st`,
    /// each with its parameters as its variables.
    fn build_catch_blocks(&mut self, st: &AstNode, clauses: &Vec<AstNode>) -> (r: Result<
        Vec<Block>,
        StatementVisitorError,
    >)
        requires
            attr_nodes(*st, "clauses"@) == Some(clauses@),
        ensures
            keeps(*old(self), *final(self)),
            blocks_outcome(
                clauses_spec(src_of(*old(self)), clauses@),
                r,
                old(self).debug_unit.variables@,
                final(self).debug_unit.variables@,
            ),
        decreases st, 0int,
    {
        let ghost src = src_of(*self);
        let ghost start_self = *self;
        let ghost v0 = self.debug_unit.variables@;
        proof {
            lemma_attr_node_decreases(*st, "clauses"@);
            lemma_appended_none(v0);
            lemma_blocks_empty();
            assert(clauses@.take(0) =~= Seq::<AstNode>::empty());
        }
        let mut catch_blocks: Vec<Block> = Vec::new();
        let n = clauses.len();
        let mut i: usize = 0;
        while i < n
            invariant
                n == clauses@.len(),
                i <= n,
                start_self == *old(self),
                keeps(start_self, *self),
                src == src_of(start_self),
                v0 == start_self.debug_unit.variables@,
                forall|j: int| 0 <= j < clauses@.len() ==> decreases_to!(*st => clauses@[j]),
                clauses_spec(src, clauses@.take(i as int)) matches Built::Read((cbs, vs))
                    && blocks_are(catch_blocks@, cbs) && appended(v0, self.debug_unit.variables@, vs),
            decreases n - i,
        {
            let ghost cbs = clauses_spec(src, clauses@.take(i as int))->Read_0.0;
            let ghost vs = clauses_spec(src, clauses@.take(i as int))->Read_0.1;
            let ghost before = self.debug_unit.variables@;
            assert(clauses@.take(i + 1).drop_last() =~= clauses@.take(i as int));
            assert(clauses@.take(i + 1).last() == clauses@[i as int]);
            proof {
                if !(clauses_spec(src, clauses@.take(i + 1)) is Read) {
                    lemma_clauses_stuck(src, clauses@, i + 1);
                }
            }
            let clause = &clauses[i];
            proof {
                lemma_attr_node_decreases(*clause, "block"@);
            }
            let blk = match node_attribute(clause, "block") {
                Some(b) => b,
                None => {
                    return Err(missing("block"));
                },
            };
            let params = if node_attribute(clause, "parameters").is_some() {
                match self.build_debug_parameters(clause) {
                    Ok(p) => p,
                    Err(e) => {
                        return Err(e);
                    },
                }
            } else {
                proof {
                    lemma_appended_none(before);
                }
                Vec::new()
            };
            let ghost ps = if attr_node(*clause, "parameters"@) is Some {
                params_spec(*clause)->Read_0
            } else {
                Seq::<VarSpec>::empty()
            };
            let ghost mid = self.debug_unit.variables@;
            let mut ids: Vec<usize> = Vec::new();
            let m = params.len();
            let mut j: usize = 0;
            while j < m
                invariant
                    m == params@.len(),
                    j <= m,
                    vars_are(params@, ps),
                    ids@ == ps.take(j as int).map_values(|p: VarSpec| p.id as usize),
                decreases m - j,
            {
                assert(var_is(params@[j as int], ps[j as int]));
                ids.push(params[j].id as usize);
                assert(ps.take(j + 1).map_values(|p: VarSpec| p.id as usize) =~= ps.take(
                    j as int,
                ).map_values(|p: VarSpec| p.id as usize).push(ps[j as int].id as usize));
                j = j + 1;
            }
            assert(ps.take(m as int) =~= ps);
            let mut cb = match self.build_debug_block(blk) {
                Ok(b) => b,
                Err(e) => {
                    return Err(e);
                },
            };
            let ghost after = self.debug_unit.variables@;
            cb.variables = ids;
            proof {
                let bb = block_spec(src, *blk)->Read_0.0;
                let vs2 = block_spec(src, *blk)->Read_0.1;
                let cbspec = BlockSpec { variables: ps.map_values(|p: VarSpec| p.id as usize), ..bb };
                lemma_blocks_push(catch_blocks@, cb, cbs, cbspec);
                lemma_appended_trans(v0, before, mid, vs, ps);
                lemma_appended_trans(v0, mid, after, vs + ps, vs2);
            }
            catch_blocks.push(cb);
            i = i + 1;
        }
        assert(clauses@.take(n as int) =~= clauses@);
        Ok(catch_blocks)
    }

    /// The blocks of the `if`/`else if`/`else` chain that starts at `cur`.
    fn flatten_if_else_chain(&mut self, cur: &AstNode) -> (r: Result<Vec<Block>, StatementVisitorError>)
        ensures
            keeps(*old(self), *final(self)),
            blocks_outcome(
                if_chain_spec(src_of(*old(self)), *cur),
                r,
                old(self).debug_unit.variables@,
                final(self).debug_unit.variables@,
            ),
        decreases cur, 1int,
    {
        let ghost src = src_of(*self);
        let ghost v0 = self.debug_unit.variables@;
        proof {
            lemma_attr_node_decreases(*cur, "trueBody"@);
            lemma_attr_node_decreases(*cur, "falseBody"@);
            lemma_appended_none(v0);
            lemma_blocks_empty();
        }
        let mut blocks: Vec<Block> = Vec::new();
        assert(blocks@ =~= Seq::<Block>::empty());
        if let Some(tb) = node_attribute(cur, "trueBody") {
            let mut ib = match self.build_debug_block(tb) {
                Ok(b) => b,
                Err(e) => {
                    return Err(e);
                },
            };
            if let Some(c) = node_attribute(cur, "condition") {
                match self.statement_instruction(c, InstructionKind::Statement) {
                    Some(cond) => {
                        ib.condition = Some(cond);
                    },
                    None => {
                        return Err(StatementVisitorError::ParseError);
                    },
                }
            }
            proof {
                let bss = if_chain_spec(src, *cur);
                let bb = block_spec(src, *tb)->Read_0.0;
                let spec = match attr_node(*cur, "condition"@) {
                    Some(c) => BlockSpec { condition: statement_at(src, c, InstructionKind::Statement), ..bb },
                    None => bb,
                };
                lemma_blocks_push(blocks@, ib, Seq::<BlockSpec>::empty(), spec);
                assert(Seq::<BlockSpec>::empty().push(spec) =~= seq![spec]);
            }
            blocks.push(ib);
        }
        let ghost v1 = self.debug_unit.variables@;
        let ghost first = if_first(src, *cur);
        assert(first matches Built::Read((bs, vs)) && blocks_are(blocks@, bs) && appended(v0, v1, vs));
        if let Some(fb) = node_attribute(cur, "falseBody") {
            if matches!(fb.node_type, NodeType::IfStatement) {
                let mut rest = match self.flatten_if_else_chain(fb) {
                    Ok(b) => b,
                    Err(e) => {
                        return Err(e);
                    },
                };
                proof {
                    let (bs, vs) = first->Read_0;
                    let (bs2, vs2) = if_chain_spec(src, *fb)->Read_0;
                    lemma_blocks_append(blocks@, rest@, bs, bs2);
                    lemma_appended_trans(v0, v1, self.debug_unit.variables@, vs, vs2);
                }
                blocks.append(&mut rest);
            } else {
                let eb = match self.build_debug_block(fb) {
                    Ok(b) => b,
                    Err(e) => {
                        return Err(e);
                    },
                };
                proof {
                    let (bs, vs) = first->Read_0;
                    let (eb_spec, vs2) = block_spec(src, *fb)->Read_0;
                    lemma_blocks_push(blocks@, eb, bs, eb_spec);
                    lemma_appended_trans(v0, v1, self.debug_unit.variables@, vs, vs2);
                }
                blocks.push(eb);
            }
        }
        Ok(blocks)
    }
}


/// A function as plain values.
pub struct FunctionSpec {
    pub name: Seq<char>,
    pub kind: FunctionKind,
    pub root: BlockSpec,
    pub parameters: Seq<VarSpec>,
    pub loc: SourceLocationHelper,
}

pub open spec fn function_is(f: Function, s: FunctionSpec) -> bool {
    &&& f.name@ == s.name
    &&& f.kind == s.kind
    &&& block_is(f.root_block, s.root)
    &&& vars_are(f.parameters@, s.parameters)
    &&& f.loc == s.loc
}

/// The body of a function or modifier `n`: its block, or the empty block.
pub open spec fn body_spec(src: Seq<u8>, n: AstNode) -> Built<(BlockSpec, Seq<VarSpec>)> {
    match n.body {
        Some(b) => block_spec(src, *b),
        None => Built::Read((empty_block(), seq![])),
    }
}

/// The function that the definition `n` defines, and the variables it
/// declares (its parameters first). A constructor is named `constructor`.
pub open spec fn function_spec(src: Seq<u8>, n: AstNode, kind: FunctionKind) -> Built<
    (FunctionSpec, Seq<VarSpec>),
> {
    let name = if kind is Constructor {
        Some("constructor"@)
    } else {
        attr_str(n, "name"@)
    };
    match name {
        None => Built::Failed(ErrView::MissingAttribute("name"@)),
        Some(nm) => match params_spec(n) {
            Built::Read(ps) => match body_spec(src, n) {
                Built::Read((root, vs)) => match n.src.length {
                    Some(l) => Built::Read(
                        (
                            FunctionSpec {
                                name: nm,
                                kind,
                                root,
                                parameters: ps,
                                loc: SourceLocationHelper { start: n.src.start, length: l },
                            },
                            ps + vs,
                        ),
                    ),
                    None => Built::Malformed,
                },
                Built::Failed(e) => Built::Failed(e),
                Built::Malformed => Built::Malformed,
            },
            Built::Failed(e) => Built::Failed(e),
            Built::Malformed => Built::Malformed,
        },
    }
}

/// The modifier that the definition `n` defines, and the variables it declares.
pub open spec fn modifier_spec(src: Seq<u8>, n: AstNode) -> Built<(FunctionSpec, Seq<VarSpec>)> {
    match body_spec(src, n) {
        Built::Read((root, vs)) => match attr_str(n, "name"@) {
            None => Built::Failed(ErrView::MissingAttribute("name"@)),
            Some(nm) => match n.src.length {
                Some(l) => Built::Read(
                    (
                        FunctionSpec {
                            name: nm,
                            kind: FunctionKind::Modifier,
                            root,
                            parameters: seq![],
                            loc: SourceLocationHelper { start: n.src.start, length: l },
                        },
                        vs,
                    ),
                ),
                None => Built::Malformed,
            },
        },
        Built::Failed(e) => Built::Failed(e),
        Built::Malformed => Built::Malformed,
    }
}

/// The name of function `k` of a unit: that of its new definition, or the name
/// it had.
pub open spec fn entry_name(es: Seq<Option<FunctionSpec>>, names: Seq<Seq<char>>, k: int) -> Seq<char> {
    match es[k] {
        Some(f) => f.name,
        None => names[k],
    }
}

/// The first of the functions `0..n` named `name`.
pub open spec fn first_named(es: Seq<Option<FunctionSpec>>, names: Seq<Seq<char>>, name: Seq<char>, n: int) -> Option<
    int,
>
    decreases n,
{
    if n <= 0 {
        None
    } else {
        match first_named(es, names, name, n - 1) {
            Some(k) => Some(k),
            None => if entry_name(es, names, n - 1) == name {
                Some(n - 1)
            } else {
                None
            },
        }
    }
}

/// The functions with `f` put under its name: in place of the function of that
/// name, or after the others.
pub open spec fn put_entry(es: Seq<Option<FunctionSpec>>, names: Seq<Seq<char>>, f: FunctionSpec) -> Seq<
    Option<FunctionSpec>,
> {
    match first_named(es, names, f.name, es.len() as int) {
        Some(k) => es.update(k, Some(f)),
        None => es.push(Some(f)),
    }
}

/// The functions `fs` are the functions `prior`, each replaced or kept as `es`
/// says, then the new ones.
pub open spec fn functions_match(fs: Seq<Function>, prior: Seq<Function>, es: Seq<Option<FunctionSpec>>) -> bool {
    &&& fs.len() == es.len()
    &&& prior.len() <= es.len()
    &&& forall|k: int|
        0 <= k < es.len() ==> match #[trigger] es[k] {
            None => k < prior.len() && fs[k] == prior[k],
            Some(s) => function_is(fs[k], s),
        }
}

/// The names of the functions `fs`.
pub open spec fn names_of(fs: Seq<Function>) -> Seq<Seq<char>> {
    fs.map_values(|f: Function| f.name@)
}

/// What reading the contract's children so far has given: its functions, the
/// variables declared, and whether a function was read last.
pub struct ContractState {
    pub entries: Seq<Option<FunctionSpec>>,
    pub variables: Seq<VarSpec>,
    pub in_constructor: bool,
}

/// The state after reading the child `c` of the contract: a function or
/// modifier is put under its name; a declaration of a state variable, type,
/// event, error or `using` directive adds nothing; any other kind of node is
/// not one that a contract holds.
pub open spec fn child_step(src: Seq<u8>, names: Seq<Seq<char>>, st: ContractState, c: AstNode) -> Built<
    ContractState,
> {
    match c.node_type {
        NodeType::FunctionDefinition => match attr_str(c, "kind"@) {
            None => Built::Failed(ErrView::MissingAttribute("kind"@)),
            Some(k) => {
                let kind = if k == "constructor"@ {
                    FunctionKind::Constructor
                } else {
                    FunctionKind::Function
                };
                match function_spec(src, c, kind) {
                    Built::Read((f, vs)) => Built::Read(
                        ContractState {
                            entries: put_entry(st.entries, names, f),
                            variables: st.variables + vs,
                            in_constructor: false,
                        },
                    ),
                    Built::Failed(e) => Built::Failed(e),
                    Built::Malformed => Built::Malformed,
                }
            },
        },
        NodeType::ModifierDefinition => match modifier_spec(src, c) {
            Built::Read((f, vs)) => Built::Read(
                ContractState {
                    entries: put_entry(st.entries, names, f),
                    variables: st.variables + vs,
                    ..st
                },
            ),
            Built::Failed(e) => Built::Failed(e),
            Built::Malformed => Built::Malformed,
        },
        NodeType::VariableDeclaration
        | NodeType::StructDefinition
        | NodeType::EventDefinition
        | NodeType::EnumDefinition
        | NodeType::UsingForDirective
        | NodeType::UserDefinedValueTypeDefinition
        | NodeType::ErrorDefinition => Built::Read(st),
        _ => Built::Malformed,
    }
}

/// The state after reading the children `cs` in order, from `init`.
pub open spec fn contract_fold(src: Seq<u8>, names: Seq<Seq<char>>, init: ContractState, cs: Seq<AstNode>) -> Built<
    ContractState,
>
    decreases cs.len(),
{
    if cs.len() == 0 {
        Built::Read(init)
    } else {
        match contract_fold(src, names, init, cs.drop_last()) {
            Built::Read(st) => child_step(src, names, st, cs.last()),
            other => other,
        }
    }
}

/// What reading the contract `n` gives, from a unit whose functions are `prior`
/// and a visitor whose flag is `in_constructor`.
pub open spec fn contract_spec(src: Seq<u8>, prior: Seq<Function>, in_constructor: bool, n: AstNode) -> Built<
    ContractState,
> {
    contract_fold(
        src,
        names_of(prior),
        ContractState {
            entries: Seq::new(prior.len(), |k: int| None::<FunctionSpec>),
            variables: seq![],
            in_constructor,
        },
        n.nodes@,
    )
}

proof fn lemma_contract_stuck(src: Seq<u8>, names: Seq<Seq<char>>, init: ContractState, cs: Seq<AstNode>, k: int)
    requires
        0 <= k <= cs.len(),
        !(contract_fold(src, names, init, cs.take(k)) is Read),
    ensures
        contract_fold(src, names, init, cs) == contract_fold(src, names, init, cs.take(k)),
    decreases cs.len() - k,
{
    if k < cs.len() {
        assert(cs.take(k + 1).drop_last() =~= cs.take(k));
        lemma_contract_stuck(src, names, init, cs, k + 1);
    } else {
        assert(cs.take(k) =~= cs);
    }
}

/// `b` is `a` but for the unit's functions and variables, the flag and the
/// contract node.
pub open spec fn keeps_unit(a: StatementVisitor, b: StatementVisitor) -> bool {
    &&& b.source == a.source
    &&& b.debug_unit == DebugUnit {
        variables: b.debug_unit.variables,
        functions: b.debug_unit.functions,
        ..a.debug_unit
    }
}

impl StatementVisitor {
    /// A visitor of the contract `contract_name` in the file at `path`, whose
    /// text is `source`, with the maps of its deployed code and of its
    /// creation code. Nothing is read yet.
    pub fn new(
        contract_name: String,
        deployed_bytecode: BytecodeMap,
        bytecode: BytecodeMap,
        path: String,
        source: String,
    ) -> (r: Self)
        ensures
            r.source == source,
            r.in_constructor == false,
            r.contract_node is None,
            r.debug_unit.contract_name == contract_name,
            r.debug_unit.path == path,
            r.debug_unit.source_id == 0,
            r.debug_unit.location == empty_block().location,
            r.debug_unit.functions@.len() == 0,
            r.debug_unit.variables@.len() == 0,
            r.debug_unit.state_variables@.len() == 0,
            r.debug_unit.linearized_base_contracts@.len() == 0,
            r.debug_unit.bytecode == bytecode,
            r.debug_unit.deployed_bytecode == deployed_bytecode,
    {
        StatementVisitor {
            source,
            in_constructor: false,
            contract_node: None,
            debug_unit: DebugUnit {
                contract_name,
                source_id: 0,
                location: SourceLocation {
                    line: 0,
                    column: 0,
                    end_line: None,
                    end_column: None,
                    start_offset: 0,
                    length: None,
                },
                path,
                functions: Vec::new(),
                variables: Vec::new(),
                bytecode,
                deployed_bytecode,
                state_variables: Vec::new(),
                linearized_base_contracts: Vec::new(),
            },
        }
    }

    /// The function that the definition `node` defines (a constructor, or a
    /// function by its name), with its parameters and body; its parameters and
    /// the variables of its body are added to the variables of the unit.
    fn build_debug_function(&mut self, node: &AstNode, kind: FunctionKind) -> (r: Result<
        Function,
        StatementVisitorError,
    >)
        requires
            !(kind is Modifier),
        ensures
            final(self).source == old(self).source,
            final(self).contract_node == old(self).contract_node,
            final(self).debug_unit == (DebugUnit {
                variables: final(self).debug_unit.variables,
                ..old(self).debug_unit
            }),
            r is Ok ==> !final(self).in_constructor,
            match function_spec(src_of(*old(self)), *node, kind) {
                Built::Read((f, vs)) => r matches Ok(x) && function_is(x, f) && appended(
                    old(self).debug_unit.variables@,
                    final(self).debug_unit.variables@,
                    vs,
                ),
                Built::Failed(e) => r matches Err(x) && err_view(x) == e,
                Built::Malformed => r matches Err(x) && x is ParseError,
            },
    {
        let ghost src = src_of(*self);
        let ghost v0 = self.debug_unit.variables@;
        let is_constructor = matches!(kind, FunctionKind::Constructor);
        self.in_constructor = is_constructor;
        let ghost set = *self;
        let name = if is_constructor {
            proof {
                reveal_strlit("constructor");
            }
            "constructor".to_owned()
        } else {
            match str_attribute(node, "name") {
                Some(n) => n.clone(),
                None => {
                    return Err(missing("name"));
                },
            }
        };
        let parameters = match self.build_debug_parameters(node) {
            Ok(p) => p,
            Err(e) => {
                return Err(e);
            },
        };
        let ghost v1 = self.debug_unit.variables@;
        let root_block = match &node.body {
            Some(body) => match self.build_debug_block(&**body) {
                Ok(b) => b,
                Err(e) => {
                    return Err(e);
                },
            },
            None => {
                proof {
                    lemma_appended_none(v1);
                }
                Block {
                    variables: Vec::new(),
                    condition: None,
                    instructions: Vec::new(),
                    scopes: Vec::new(),
                    location: SourceLocation {
                        line: 0,
                        column: 0,
                        end_line: None,
                        end_column: None,
                        start_offset: 0,
                        length: None,
                    },
                }
            },
        };
        proof {
            if node.body is None {
                assert(root_block.variables@ =~= Seq::<usize>::empty());
                assert(root_block.instructions@ =~= Seq::<Instruction>::empty());
                assert(root_block.scopes@ =~= Seq::<Block>::empty());
            }
            let ps = params_spec(*node)->Read_0;
            let vs = body_spec(src, *node)->Read_0.1;
            lemma_appended_trans(v0, v1, self.debug_unit.variables@, ps, vs);
        }
        let length = match node.src.length {
            Some(l) => l,
            None => {
                return Err(StatementVisitorError::ParseError);
            },
        };
        let function = Function {
            name,
            root_block,
            kind,
            parameters,
            loc: SourceLocationHelper { start: node.src.start, length },
        };
        self.in_constructor = false;
        Ok(function)
    }
}


/// The block of no statements at the start of a file.
fn new_empty_block() -> (r: Block)
    ensures
        block_is(r, empty_block()),
{
    let r = Block {
        variables: Vec::new(),
        condition: None,
        instructions: Vec::new(),
        scopes: Vec::new(),
        location: SourceLocation {
            line: 0,
            column: 0,
            end_line: None,
            end_column: None,
            start_offset: 0,
            length: None,
        },
    };
    assert(r.variables@ =~= Seq::<usize>::empty());
    assert(r.instructions@ =~= Seq::<Instruction>::empty());
    assert(r.scopes@ =~= Seq::<Block>::empty());
    r
}

/// Puts `f` into `fns` under its name: in place of the function of that name,
/// or after the others.
fn put_function(
    fns: &mut Vec<Function>,
    f: Function,
    Ghost(prior): Ghost<Seq<Function>>,
    Ghost(es): Ghost<Seq<Option<FunctionSpec>>>,
    Ghost(fs): Ghost<FunctionSpec>,
)
    requires
        functions_match(old(fns)@, prior, es),
        function_is(f, fs),
    ensures
        functions_match(final(fns)@, prior, put_entry(es, names_of(prior), fs)),
{
    let ghost names = names_of(prior);
    let n = fns.len();
    let mut k: usize = 0;
    while k < n
        invariant
            n == fns@.len(),
            k <= n,
            functions_match(fns@, prior, es),
            function_is(f, fs),
            names == names_of(prior),
            first_named(es, names, fs.name, k as int) is None,
        decreases n - k,
    {
        assert(fns@[k as int].name@ == entry_name(es, names, k as int)) by {
            match es[k as int] {
                Some(s) => {},
                None => {
                    assert(names[k as int] == prior[k as int].name@);
                },
            }
        }
        if str_eq(fns[k].name.as_str(), f.name.as_str()) {
            assert(first_named(es, names, fs.name, n as int) == Some(k as int)) by {
                lemma_first_named_found(es, names, fs.name, k as int, n as int);
            }
            let ghost before = fns@;
            fns.set(k, f);
            assert(fns@ == before.update(k as int, f));
            assert(function_is(fns@[k as int], fs));
            assert(functions_match(fns@, prior, es.update(k as int, Some(fs)))) by {
                assert forall|j: int| 0 <= j < es.len() implies match #[trigger] es.update(k as int, Some(fs))[j] {
                    None => j < prior.len() && fns@[j] == prior[j],
                    Some(s) => function_is(fns@[j], s),
                } by {
                    if j != k {
                        assert(es.update(k as int, Some(fs))[j] == es[j]);
                        assert(fns@[j] == before[j]);
                        match es[j] {
                            Some(s) => {},
                            None => {},
                        }
                    }
                }
            }
            return ;
        }
        k = k + 1;
    }
    fns.push(f);
    assert(functions_match(fns@, prior, es.push(Some(fs)))) by {
        assert forall|j: int| 0 <= j < es.len() + 1 implies match #[trigger] es.push(Some(fs))[j] {
            None => j < prior.len() && fns@[j] == prior[j],
            Some(s) => function_is(fns@[j], s),
        } by {
            if j < es.len() {
                match es[j] {
                    Some(s) => {},
                    None => {},
                }
            }
        }
    }
}

/// Once a function of the name is found among the first ones, it is the first
/// of that name among all.
proof fn lemma_first_named_found(es: Seq<Option<FunctionSpec>>, names: Seq<Seq<char>>, name: Seq<char>, k: int, n: int)
    requires
        0 <= k < n,
        first_named(es, names, name, k) is None,
        entry_name(es, names, k) == name,
    ensures
        first_named(es, names, name, n) == Some(k),
    decreases n - k,
{
    if n > k + 1 {
        lemma_first_named_found(es, names, name, k, n - 1);
    }
}

impl StatementVisitor {
    /// Reads the contract `node`: each function and modifier is put into the
    /// unit under its name, and the variables they declare are added to the
    /// unit's variables. The contract node is kept.
    pub fn visit_contract(&mut self, node: &AstNode) -> (r: Result<(), StatementVisitorError>)
        ensures
            keeps_unit(*old(self), *final(self)),
            final(self).contract_node matches Some(c) && same_node(c, *node),
            match contract_spec(
                src_of(*old(self)),
                old(self).debug_unit.functions@,
                old(self).in_constructor,
                *node,
            ) {
                Built::Read(st) => r is Ok && functions_match(
                    final(self).debug_unit.functions@,
                    old(self).debug_unit.functions@,
                    st.entries,
                ) && appended(old(self).debug_unit.variables@, final(self).debug_unit.variables@, st.variables)
                    && final(self).in_constructor == st.in_constructor,
                Built::Failed(e) => r matches Err(x) && err_view(x) == e,
                Built::Malformed => r matches Err(x) && x is ParseError,
            },
    {
        let ghost src = src_of(*self);
        let ghost start = *self;
        let ghost old_fns = self.debug_unit.functions@;
        let ghost v0 = self.debug_unit.variables@;
        let ghost names = names_of(old_fns);
        let ghost init = ContractState {
            entries: Seq::new(old_fns.len(), |k: int| None::<FunctionSpec>),
            variables: seq![],
            in_constructor: self.in_constructor,
        };
        self.contract_node = Some(clone_node(node));
        let ghost kept = self.contract_node;
        let n = node.nodes.len();
        let mut i: usize = 0;
        proof {
            lemma_appended_none(v0);
            assert(node.nodes@.take(0) =~= Seq::<AstNode>::empty());
            assert(functions_match(self.debug_unit.functions@, old_fns, init.entries));
        }
        while i < n
            invariant
                n == node.nodes@.len(),
                i <= n,
                keeps_unit(start, *self),
                start == *old(self),
                src == src_of(start),
                self.contract_node == kept,
                kept matches Some(c) && same_node(c, *node),
                old_fns == start.debug_unit.functions@,
                v0 == start.debug_unit.variables@,
                names == names_of(old_fns),
                contract_spec(src, old_fns, start.in_constructor, *node) == contract_fold(src, names, init, node.nodes@),
                contract_fold(src, names, init, node.nodes@.take(i as int)) matches Built::Read(st)
                    && functions_match(self.debug_unit.functions@, old_fns, st.entries)
                    && appended(v0, self.debug_unit.variables@, st.variables)
                    && self.in_constructor == st.in_constructor,
            decreases n - i,
        {
            let ghost st = contract_fold(src, names, init, node.nodes@.take(i as int))->Read_0;
            let ghost before = self.debug_unit.variables@;
            assert(node.nodes@.take(i + 1).drop_last() =~= node.nodes@.take(i as int));
            assert(node.nodes@.take(i + 1).last() == node.nodes@[i as int]);
            proof {
                if !(contract_fold(src, names, init, node.nodes@.take(i + 1)) is Read) {
                    lemma_contract_stuck(src, names, init, node.nodes@, i + 1);
                }
            }
            let child = &node.nodes[i];
            match &child.node_type {
                NodeType::FunctionDefinition => {
                    let kind_name = match str_attribute(child, "kind") {
                        Some(k) => k,
                        None => {
                            return Err(missing("kind"));
                        },
                    };
                    let kind = if str_eq(kind_name.as_str(), "constructor") {
                        FunctionKind::Constructor
                    } else {
                        FunctionKind::Function
                    };
                    proof {
                        reveal_strlit("constructor");
                    }
                    let f = match self.build_debug_function(child, kind) {
                        Ok(f) => f,
                        Err(e) => {
                            return Err(e);
                        },
                    };
                    let ghost (fs, vs) = function_spec(src, *child, kind)->Read_0;
                    put_function(&mut self.debug_unit.functions, f, Ghost(old_fns), Ghost(st.entries), Ghost(fs));
                    proof {
                        lemma_appended_trans(v0, before, self.debug_unit.variables@, st.variables, vs);
                    }
                },
                NodeType::ModifierDefinition => {
                    let root_block = match &child.body {
                        Some(body) => match self.build_debug_block(&**body) {
                            Ok(b) => b,
                            Err(e) => {
                                return Err(e);
                            },
                        },
                        None => {
                            proof {
                                lemma_appended_none(before);
                            }
                            new_empty_block()
                        },
                    };
                    let name = match str_attribute(child, "name") {
                        Some(nm) => nm.clone(),
                        None => {
                            return Err(missing("name"));
                        },
                    };
                    let length = match child.src.length {
                        Some(l) => l,
                        None => {
                            return Err(StatementVisitorError::ParseError);
                        },
                    };
                    let f = Function {
                        name,
                        kind: FunctionKind::Modifier,
                        root_block,
                        parameters: Vec::new(),
                        loc: SourceLocationHelper { start: child.src.start, length },
                    };
                    let ghost (fs, vs) = modifier_spec(src, *child)->Read_0;
                    assert(f.parameters@ =~= Seq::<Variable>::empty());
                    put_function(&mut self.debug_unit.functions, f, Ghost(old_fns), Ghost(st.entries), Ghost(fs));
                    proof {
                        lemma_appended_trans(v0, before, self.debug_unit.variables@, st.variables, vs);
                    }
                },
                NodeType::VariableDeclaration
                | NodeType::StructDefinition
                | NodeType::EventDefinition
                | NodeType::EnumDefinition
                | NodeType::UsingForDirective
                | NodeType::UserDefinedValueTypeDefinition
                | NodeType::ErrorDefinition => {
                    assert(st.variables + seq![] =~= st.variables);
                },
                _ => {
                    return Err(StatementVisitorError::ParseError);
                },
            }
            i = i + 1;
        }
        assert(node.nodes@.take(n as int) =~= node.nodes@);
        Ok(())
    }
}


/// The instructions `cs` are function calls, each at the place `at`.
pub open spec fn calls_at(cs: Seq<Instruction>, at: SourceLocation) -> bool {
    forall|i: int|
        0 <= i < cs.len() ==> (#[trigger] cs[i]).kind == InstructionKind::FunctionCall && cs[i].location == at
}

proof fn lemma_expr_calls_at(n: AstNode, at: SourceLocation)
    ensures
        expr_calls(n, at) matches Some(cs) ==> calls_at(cs, at),
    decreases n, 1int,
{
    lemma_attr_node_decreases(n, "arguments"@);
    lemma_attr_node_decreases(n, "leftExpression"@);
    lemma_attr_node_decreases(n, "rightExpression"@);
    lemma_attr_node_decreases(n, "rightHandSide"@);
    lemma_attr_node_decreases(n, "subExpression"@);
    lemma_attr_node_decreases(n, "expression"@);
    match n.node_type {
        NodeType::FunctionCall => {
            if !call_skipped(n) && n.src.length is Some {
                if let Some(args) = attr_nodes(n, "arguments"@) {
                    lemma_args_calls_at(args, at);
                }
            }
        },
        NodeType::BinaryOperation => {
            if let Some(c) = attr_node(n, "leftExpression"@) {
                lemma_expr_calls_at(c, at);
            }
            if let Some(c) = attr_node(n, "rightExpression"@) {
                lemma_expr_calls_at(c, at);
            }
        },
        NodeType::Assignment => {
            if let Some(c) = attr_node(n, "rightHandSide"@) {
                lemma_expr_calls_at(c, at);
            }
        },
        NodeType::UnaryOperation => {
            if let Some(c) = attr_node(n, "subExpression"@) {
                lemma_expr_calls_at(c, at);
            }
        },
        NodeType::MemberAccess | NodeType::IndexAccess => {
            if let Some(c) = attr_node(n, "expression"@) {
                lemma_expr_calls_at(c, at);
            }
        },
        _ => {},
    }
}

proof fn lemma_args_calls_at(args: Seq<AstNode>, at: SourceLocation)
    ensures
        args_calls(args, at) matches Some(cs) ==> calls_at(cs, at),
    decreases args, 0int,
{
    if args.len() > 0 {
        lemma_args_calls_at(args.drop_last(), at);
        lemma_expr_calls_at(args.last(), at);
    }
}

/// Reading an expression statement into a block adds, after what the block
/// held, one call for each function call of its expression, all at the place
/// of the statement, and then the statement itself: where a call and its
/// statement share a range, the call comes first and is the one matched.
pub proof fn law_calls_come_before_their_statement(src: Seq<u8>, st: AstNode, b: BlockSpec)
    requires
        st.node_type is ExpressionStatement,
        stmt_spec(src, st, b) is Read,
    ensures
        ({
            let b2 = stmt_spec(src, st, b)->Read_0.0;
            let n = b.instructions.len() as int;
            let m = b2.instructions.len() as int;
            &&& m > n
            &&& b2.instructions.take(n) == b.instructions
            &&& b2.instructions[m - 1] == statement_at(src, st, InstructionKind::Statement)->0
            &&& b2.instructions[m - 1].kind == InstructionKind::Statement
            &&& forall|i: int|
                n <= i < m - 1 ==> (#[trigger] b2.instructions[i]).kind == InstructionKind::FunctionCall
                    && b2.instructions[i].location == b2.instructions[m - 1].location
        }),
{
    let at = location_for(src, st.src);
    let b2 = stmt_spec(src, st, b)->Read_0.0;
    let cs = match attr_node(st, "expression"@) {
        Some(e) => {
            lemma_expr_calls_at(e, at);
            expr_calls(e, at)->0
        },
        None => seq![],
    };
    let inst = statement_at(src, st, InstructionKind::Statement)->0;
    assert(b2.instructions == b.instructions + cs + seq![inst]);
    assert(b2.instructions.take(b.instructions.len() as int) =~= b.instructions);
    assert forall|i: int|
        b.instructions.len() <= i < b2.instructions.len() - 1 implies (#[trigger] b2.instructions[i]).kind
        == InstructionKind::FunctionCall && b2.instructions[i].location == b2.instructions[b2.instructions.len() - 1].location by {
        assert(b2.instructions[i] == cs[i - b.instructions.len()]);
    }
}


/// One of the variables `vs` has the id `id`.
pub open spec fn declares(vs: Seq<VarSpec>, id: usize) -> bool {
    exists|j: int| 0 <= j < vs.len() && vs[j].id as usize == id
}

/// Every id that the block `b` lists, in it or in the blocks nested in it, is
/// the id of one of the variables `vs`.
pub open spec fn block_declared(b: BlockSpec, vs: Seq<VarSpec>) -> bool
    decreases b,
{
    &&& forall|i: int| 0 <= i < b.variables.len() ==> declares(vs, #[trigger] b.variables[i])
    &&& blocks_declared(b.scopes, vs)
}

pub open spec fn blocks_declared(bs: Seq<BlockSpec>, vs: Seq<VarSpec>) -> bool
    decreases bs,
{
    bs.len() > 0 ==> blocks_declared(bs.drop_last(), vs) && block_declared(bs.last(), vs)
}

proof fn lemma_declares_within(vs: Seq<VarSpec>, a: Seq<VarSpec>, c: Seq<VarSpec>, id: usize)
    requires
        declares(vs, id),
    ensures
        declares(a + vs + c, id),
{
    let j = choose|j: int| 0 <= j < vs.len() && vs[j].id as usize == id;
    assert((a + vs + c)[a.len() + j] == vs[j]);
}

proof fn lemma_block_declared_within(b: BlockSpec, vs: Seq<VarSpec>, a: Seq<VarSpec>, c: Seq<VarSpec>)
    requires
        block_declared(b, vs),
    ensures
        block_declared(b, a + vs + c),
    decreases b, 1int,
{
    assert forall|i: int| 0 <= i < b.variables.len() implies declares(a + vs + c, #[trigger] b.variables[i]) by {
        lemma_declares_within(vs, a, c, b.variables[i]);
    }
    lemma_blocks_declared_within(b.scopes, vs, a, c);
}

proof fn lemma_blocks_declared_within(bs: Seq<BlockSpec>, vs: Seq<VarSpec>, a: Seq<VarSpec>, c: Seq<VarSpec>)
    requires
        blocks_declared(bs, vs),
    ensures
        blocks_declared(bs, a + vs + c),
    decreases bs, 0int,
{
    if bs.len() > 0 {
        lemma_blocks_declared_within(bs.drop_last(), vs, a, c);
        lemma_block_declared_within(bs.last(), vs, a, c);
    }
}

proof fn lemma_blocks_declared_push(bs: Seq<BlockSpec>, b: BlockSpec, vs: Seq<VarSpec>)
    requires
        blocks_declared(bs, vs),
        block_declared(b, vs),
    ensures
        blocks_declared(bs.push(b), vs),
{
    assert(bs.push(b).drop_last() =~= bs);
}

proof fn lemma_blocks_declared_append(a: Seq<BlockSpec>, b: Seq<BlockSpec>, vs: Seq<VarSpec>)
    requires
        blocks_declared(a, vs),
        blocks_declared(b, vs),
    ensures
        blocks_declared(a + b, vs),
    decreases b.len(),
{
    if b.len() == 0 {
        assert(a + b =~= a);
    } else {
        lemma_blocks_declared_append(a, b.drop_last(), vs);
        lemma_blocks_declared_push(a + b.drop_last(), b.last(), vs);
        assert(a + b =~= (a + b.drop_last()).push(b.last()));
    }
}

/// Extends what `vs` declares on both sides, for a whole list of blocks.
proof fn lemma_blocks_widen(bs: Seq<BlockSpec>, vs: Seq<VarSpec>, a: Seq<VarSpec>, c: Seq<VarSpec>)
    requires
        blocks_declared(bs, vs),
    ensures
        blocks_declared(bs, a + vs + c),
{
    lemma_blocks_declared_within(bs, vs, a, c);
}

proof fn lemma_block_spec_declared(src: Seq<u8>, n: AstNode)
    ensures
        block_spec(src, n) matches Built::Read((b, vs)) ==> block_declared(b, vs),
    decreases n, 0int,
{
    if location_ok(src, n.src) {
        lemma_attr_node_decreases(n, "statements"@);
        let start = BlockSpec { location: location_for(src, n.src), ..empty_block() };
        assert(blocks_declared(start.scopes, seq![]));
        assert(block_declared(start, seq![]));
        if let Some(stmts) = attr_nodes(n, "statements"@) {
            lemma_stmts_spec_declared(src, stmts, start);
        }
    }
}

proof fn lemma_stmts_spec_declared(src: Seq<u8>, stmts: Seq<AstNode>, start: BlockSpec)
    requires
        block_declared(start, seq![]),
    ensures
        stmts_spec(src, stmts, start) matches Built::Read((b, vs)) ==> block_declared(b, vs),
    decreases stmts, 0int,
{
    if stmts.len() > 0 {
        lemma_stmts_spec_declared(src, stmts.drop_last(), start);
        if let Built::Read((b1, vs1)) = stmts_spec(src, stmts.drop_last(), start) {
            lemma_stmt_spec_declared(src, stmts.last(), b1, vs1);
        }
    }
}

proof fn lemma_stmt_spec_declared(src: Seq<u8>, st: AstNode, b: BlockSpec, vs0: Seq<VarSpec>)
    requires
        block_declared(b, vs0),
    ensures
        stmt_spec(src, st, b) matches Built::Read((b2, vs)) ==> block_declared(b2, vs0 + vs),
    decreases st, 2int,
{
    lemma_attr_node_decreases(st, "clauses"@);
    let e: Seq<VarSpec> = seq![];
    if let Built::Read((b2, vs)) = stmt_spec(src, st, b) {
        lemma_block_declared_within(b, vs0, e, vs);
        assert(e + vs0 + vs =~= vs0 + vs);
        lemma_blocks_widen(b.scopes, vs0, e, vs);
        match st.node_type {
            NodeType::IfStatement => {
                lemma_if_chain_declared(src, st);
                let blocks = if_chain_spec(src, st)->Read_0.0;
                lemma_blocks_widen(blocks, vs, vs0, e);
                assert(vs0 + vs + e =~= vs0 + vs);
                lemma_blocks_declared_append(b.scopes, blocks, vs0 + vs);
            },
            NodeType::ForStatement => {
                if let Some(body) = st.body {
                    assert(decreases_to!(st => *body));
                    lemma_block_spec_declared(src, *body);
                    let fb = block_spec(src, *body)->Read_0.0;
                    lemma_block_declared_within(fb, vs, vs0, e);
                    assert(vs0 + vs + e =~= vs0 + vs);
                    let last = b2.scopes.last();
                    assert(last.variables == fb.variables && last.scopes == fb.scopes);
                    lemma_blocks_declared_push(b.scopes, last, vs0 + vs);
                    assert(b2.scopes =~= b.scopes.push(last));
                }
            },
            NodeType::VariableDeclarationStatement => {
                if vs.len() > 0 {
                    let v = vs[0];
                    assert((vs0 + vs)[vs0.len() as int] == v);
                    assert(declares(vs0 + vs, v.id as usize));
                    assert forall|i: int| 0 <= i < b2.variables.len() implies declares(vs0 + vs, #[trigger] b2.variables[i]) by {
                        if i < b.variables.len() {
                            assert(b2.variables[i] == b.variables[i]);
                        }
                    }
                }
            },
            NodeType::TryStatement => {
                if let Some(cs) = attr_nodes(st, "clauses"@) {
                    lemma_clauses_declared(src, cs);
                }
                let last = b2.scopes.last();
                assert(blocks_declared(last.scopes, vs));
                lemma_blocks_widen(last.scopes, vs, vs0, e);
                assert(vs0 + vs + e =~= vs0 + vs);
                assert(last.variables.len() == 0);
                lemma_blocks_declared_push(b.scopes, last, vs0 + vs);
                assert(b2.scopes =~= b.scopes.push(last));
            },
            _ => {},
        }
    }
}

proof fn lemma_if_first_declared(src: Seq<u8>, cur: AstNode)
    ensures
        if_first(src, cur) matches Built::Read((bs, vs)) ==> blocks_declared(bs, vs),
    decreases cur, 0int,
{
    lemma_attr_node_decreases(cur, "trueBody"@);
    if let Some(tb) = attr_node(cur, "trueBody"@) {
        lemma_block_spec_declared(src, tb);
        if let Built::Read((bs, vs)) = if_first(src, cur) {
            let bb = block_spec(src, tb)->Read_0.0;
            assert(bs.len() == 1);
            assert(bs[0].variables == bb.variables && bs[0].scopes == bb.scopes);
            assert(block_declared(bs[0], vs));
            assert(bs.last() == bs[0]);
            assert(bs.drop_last() =~= Seq::<BlockSpec>::empty());
            assert(blocks_declared(bs.drop_last(), vs));
        }
    }
}

proof fn lemma_if_chain_declared(src: Seq<u8>, cur: AstNode)
    ensures
        if_chain_spec(src, cur) matches Built::Read((bs, vs)) ==> blocks_declared(bs, vs),
    decreases cur, 1int,
{
    lemma_attr_node_decreases(cur, "trueBody"@);
    lemma_attr_node_decreases(cur, "falseBody"@);
    lemma_if_first_declared(src, cur);
    let e: Seq<VarSpec> = seq![];
    if let Built::Read((bs, vs)) = if_first(src, cur) {
        lemma_blocks_widen(bs, vs, e, e);
        assert(e + vs + e =~= vs);
        if let Some(fb) = attr_node(cur, "falseBody"@) {
            if fb.node_type is IfStatement {
                lemma_if_chain_declared(src, fb);
                if let Built::Read((bs2, vs2)) = if_chain_spec(src, fb) {
                    lemma_blocks_widen(bs, vs, e, vs2);
                    assert(e + vs + vs2 =~= vs + vs2);
                    lemma_blocks_widen(bs2, vs2, vs, e);
                    assert(vs + vs2 + e =~= vs + vs2);
                    lemma_blocks_declared_append(bs, bs2, vs + vs2);
                }
            } else {
                lemma_block_spec_declared(src, fb);
                if let Built::Read((eb, vs2)) = block_spec(src, fb) {
                    lemma_blocks_widen(bs, vs, e, vs2);
                    assert(e + vs + vs2 =~= vs + vs2);
                    lemma_block_declared_within(eb, vs2, vs, e);
                    assert(vs + vs2 + e =~= vs + vs2);
                    lemma_blocks_declared_push(bs, eb, vs + vs2);
                }
            }
        }
    }
}

proof fn lemma_clauses_declared(src: Seq<u8>, cs: Seq<AstNode>)
    ensures
        clauses_spec(src, cs) matches Built::Read((bs, vs)) ==> blocks_declared(bs, vs),
    decreases cs, 0int,
{
    if cs.len() > 0 {
        lemma_clauses_declared(src, cs.drop_last());
        let c = cs.last();
        lemma_attr_node_decreases(c, "block"@);
        if let Built::Read((bs, vs)) = clauses_spec(src, cs) {
            let (bs1, vs1) = clauses_spec(src, cs.drop_last())->Read_0;
            let blk = attr_node(c, "block"@)->0;
            lemma_block_spec_declared(src, blk);
            let (bb, vs2) = block_spec(src, blk)->Read_0;
            let ps = if attr_node(c, "parameters"@) is Some {
                params_spec(c)->Read_0
            } else {
                Seq::<VarSpec>::empty()
            };
            let e: Seq<VarSpec> = seq![];
            assert(vs == vs1 + ps + vs2);
            lemma_blocks_widen(bs1, vs1, e, ps + vs2);
            assert(e + vs1 + (ps + vs2) =~= vs);
            let nb = bs.last();
            assert(nb == BlockSpec { variables: ps.map_values(|p: VarSpec| p.id as usize), ..bb });
            lemma_blocks_widen(bb.scopes, vs2, vs1 + ps, e);
            assert(vs1 + ps + vs2 + e =~= vs);
            assert forall|i: int| 0 <= i < nb.variables.len() implies declares(vs, #[trigger] nb.variables[i]) by {
                assert(vs[vs1.len() + i] == ps[i]);
            }
            assert(block_declared(nb, vs));
            lemma_blocks_declared_push(bs1, nb, vs);
            assert(bs =~= bs1.push(nb));
        }
    }
}

/// Every variable that a block read from the syntax tree lists, in it or in
/// the blocks nested in it, is one of the variables that reading it declared.
pub proof fn law_block_variables_are_declared(src: Seq<u8>, n: AstNode)
    requires
        block_spec(src, n) is Read,
    ensures
        block_declared(block_spec(src, n)->Read_0.0, block_spec(src, n)->Read_0.1),
{
    lemma_block_spec_declared(src, n);
}


/// The blocks of the functions that `es` holds list only variables of `vs`.
pub open spec fn functions_declared(es: Seq<Option<FunctionSpec>>, vs: Seq<VarSpec>) -> bool {
    forall|k: int| 0 <= k < es.len() ==> (#[trigger] es[k] matches Some(f) ==> block_declared(f.root, vs))
}

proof fn lemma_functions_widen(es: Seq<Option<FunctionSpec>>, vs: Seq<VarSpec>, more: Seq<VarSpec>)
    requires
        functions_declared(es, vs),
    ensures
        functions_declared(es, vs + more),
{
    let e: Seq<VarSpec> = seq![];
    assert(e + vs + more =~= vs + more);
    assert forall|k: int| 0 <= k < es.len() implies (#[trigger] es[k] matches Some(f) ==> block_declared(f.root, vs + more)) by {
        if let Some(f) = es[k] {
            lemma_block_declared_within(f.root, vs, e, more);
        }
    }
}

proof fn lemma_first_named_range(es: Seq<Option<FunctionSpec>>, names: Seq<Seq<char>>, name: Seq<char>, n: int)
    ensures
        first_named(es, names, name, n) matches Some(k) ==> 0 <= k < n,
    decreases n,
{
    if n > 0 {
        lemma_first_named_range(es, names, name, n - 1);
    }
}

proof fn lemma_put_declared(es: Seq<Option<FunctionSpec>>, names: Seq<Seq<char>>, f: FunctionSpec, vs: Seq<VarSpec>)
    requires
        functions_declared(es, vs),
        block_declared(f.root, vs),
    ensures
        functions_declared(put_entry(es, names, f), vs),
{
    lemma_first_named_range(es, names, f.name, es.len() as int);
    let r = put_entry(es, names, f);
    assert forall|k: int| 0 <= k < r.len() implies (#[trigger] r[k] matches Some(g) ==> block_declared(g.root, vs)) by {
        match first_named(es, names, f.name, es.len() as int) {
            Some(j) => {
                if k != j {
                    assert(r[k] == es[k]);
                }
            },
            None => {
                if k < es.len() {
                    assert(r[k] == es[k]);
                }
            },
        }
    }
}

proof fn lemma_body_declared(src: Seq<u8>, n: AstNode)
    ensures
        body_spec(src, n) matches Built::Read((b, vs)) ==> block_declared(b, vs),
{
    match n.body {
        Some(b) => lemma_block_spec_declared(src, *b),
        None => {
            assert(blocks_declared(empty_block().scopes, seq![]));
        },
    }
}

proof fn lemma_contract_fold_declared(src: Seq<u8>, names: Seq<Seq<char>>, init: ContractState, cs: Seq<AstNode>)
    requires
        functions_declared(init.entries, init.variables),
    ensures
        contract_fold(src, names, init, cs) matches Built::Read(st) ==> functions_declared(st.entries, st.variables),
    decreases cs.len(),
{
    if cs.len() > 0 {
        lemma_contract_fold_declared(src, names, init, cs.drop_last());
        if let Built::Read(st) = contract_fold(src, names, init, cs.drop_last()) {
            let c = cs.last();
            lemma_body_declared(src, c);
            let e: Seq<VarSpec> = seq![];
            match c.node_type {
                NodeType::FunctionDefinition => {
                    if let Some(k) = attr_str(c, "kind"@) {
                        let kind = if k == "constructor"@ {
                            FunctionKind::Constructor
                        } else {
                            FunctionKind::Function
                        };
                        if let Built::Read((f, vs)) = function_spec(src, c, kind) {
                            let ps = params_spec(c)->Read_0;
                            let (root, vb) = body_spec(src, c)->Read_0;
                            assert(vs == ps + vb);
                            lemma_functions_widen(st.entries, st.variables, vs);
                            lemma_block_declared_within(root, vb, st.variables + ps, e);
                            assert(st.variables + ps + vb + e =~= st.variables + vs);
                            lemma_put_declared(st.entries, names, f, st.variables + vs);
                        }
                    }
                },
                NodeType::ModifierDefinition => {
                    if let Built::Read((f, vs)) = modifier_spec(src, c) {
                        lemma_functions_widen(st.entries, st.variables, vs);
                        lemma_block_declared_within(f.root, vs, st.variables, e);
                        assert(st.variables + vs + e =~= st.variables + vs);
                        lemma_put_declared(st.entries, names, f, st.variables + vs);
                    }
                },
                _ => {},
            }
        }
    }
}

/// Every variable that the functions and modifiers read from a contract list
/// in their blocks is one of the variables that reading the contract declared
/// (and so one of those the unit holds).
pub proof fn law_function_variables_are_declared(src: Seq<u8>, prior: Seq<Function>, in_constructor: bool, n: AstNode)
    requires
        contract_spec(src, prior, in_constructor, n) is Read,
    ensures
        functions_declared(
            contract_spec(src, prior, in_constructor, n)->Read_0.entries,
            contract_spec(src, prior, in_constructor, n)->Read_0.variables,
        ),
{
    let init = ContractState {
        entries: Seq::new(prior.len(), |k: int| None::<FunctionSpec>),
        variables: seq![],
        in_constructor,
    };
    lemma_contract_fold_declared(src, names_of(prior), init, n.nodes@);
}

} // verus!
