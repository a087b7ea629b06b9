//! The debug trace of a test run: the steps of the execution, each with its
//! source location and call trace, and the variables that are in scope.
use std::collections::HashMap;
use std::time::Duration;
use vstd::prelude::*;

use crate::debugger::ast::{clone_node, same_node, AstNode};
use crate::debugger::builder::Assignment;
use crate::debugger::metrics::Action;
use crate::text::{push_str, str_eq};

verus! {

broadcast use vstd::std_specs::hash::group_hash_axioms;

/// A location in a source file.
#[derive(Clone, Copy, Debug, PartialEq, Eq, Structural)]
pub struct SourceLocation {
    pub line: usize,
    pub column: usize,
    pub end_line: Option<usize>,
    pub end_column: Option<usize>,
    pub start_offset: usize,
    pub length: Option<usize>,
}

impl SourceLocation {
    /// The location of the first line and column, with no end.
    pub fn new() -> (r: SourceLocation)
        ensures
            r == (SourceLocation {
                line: 0,
                column: 0,
                end_line: None,
                end_column: None,
                start_offset: 0,
                length: None,
            }),
    {
        SourceLocation {
            line: 0,
            column: 0,
            end_line: None,
            end_column: None,
            start_offset: 0,
            length: None,
        }
    }
}

/// Whether a call creates a contract or calls one.
#[derive(Clone, Copy, Debug, PartialEq, Eq, Structural)]
pub enum FunctionCallKind {
    Call,
    Create,
}

impl FunctionCallKind {
    /// The name of the call kind, as it is displayed.
    pub fn to_string(&self) -> (r: String)
        ensures
            r@ == match self {
                FunctionCallKind::Call => "CALL"@,
                FunctionCallKind::Create => "CREATE"@,
            },
    {
        match self {
            FunctionCallKind::Call => String::from_str("CALL"),
            FunctionCallKind::Create => String::from_str("CREATE"),
        }
    }
}

/// What a step of the trace is.
#[derive(Clone, Debug, PartialEq)]
pub enum StepKind {
    FunctionDefinition(String),
    FunctionCall(FunctionCallKind),
    FunctionExit,
    Statement(bool),
    Unknown,
}

impl StepKind {
    pub fn is_function_call(&self) -> (r: bool)
        ensures
            r == (*self is FunctionCall),
    {
        match self {
            StepKind::FunctionCall(_) => true,
            _ => false,
        }
    }
}

/// Where a variable lives.
#[derive(Clone, Copy, Debug, PartialEq, Eq, Structural)]
pub enum VariableLocation {
    Storage,
    Memory,
    Stack,
    Calldata,
}

/// Errors of reading the AST of a contract.
#[derive(Clone, Debug, PartialEq)]
pub enum StatementVisitorError {
    ParseError,
    MissingAttribute(String),
    /// expected and actual node type, by name
    IncorrectType(String, String),
    UnexpectedStorageLocation(String),
}

/// An error of reading the syntax tree, in words.
pub open spec fn error_message(e: StatementVisitorError) -> Seq<char> {
    match e {
        StatementVisitorError::ParseError => "ParseError"@,
        StatementVisitorError::MissingAttribute(a) => "MissingAttribute: "@ + a@,
        StatementVisitorError::IncorrectType(x, y) => "IncorrectType: expected "@ + x@ + ", got "@ + y@,
        StatementVisitorError::UnexpectedStorageLocation(l) => "UnexpectedStorageLocation: "@ + l@,
    }
}

impl StatementVisitorError {
    /// The error in words.
    pub fn message(&self) -> (r: String)
        ensures
            r@ == error_message(*self),
    {
        proof {
            reveal_strlit("ParseError");
            reveal_strlit("MissingAttribute: ");
            reveal_strlit("IncorrectType: expected ");
            reveal_strlit(", got ");
            reveal_strlit("UnexpectedStorageLocation: ");
        }
        let mut r = String::new();
        match self {
            StatementVisitorError::ParseError => {
                push_str(&mut r, "ParseError");
            },
            StatementVisitorError::MissingAttribute(a) => {
                push_str(&mut r, "MissingAttribute: ");
                push_str(&mut r, a.as_str());
            },
            StatementVisitorError::IncorrectType(x, y) => {
                push_str(&mut r, "IncorrectType: expected ");
                push_str(&mut r, x.as_str());
                push_str(&mut r, ", got ");
                push_str(&mut r, y.as_str());
            },
            StatementVisitorError::UnexpectedStorageLocation(l) => {
                push_str(&mut r, "UnexpectedStorageLocation: ");
                push_str(&mut r, l.as_str());
            },
        }
        r
    }
}

impl VariableLocation {
    /// Reads a storage location as the AST writes it; `"default"` gives `default`.
    pub fn from_str(s: &str, default: VariableLocation) -> (r: Result<
        VariableLocation,
        StatementVisitorError,
    >)
        ensures
            s@ == "storage"@ ==> r == Ok::<_, StatementVisitorError>(VariableLocation::Storage),
            s@ == "memory"@ ==> r == Ok::<_, StatementVisitorError>(VariableLocation::Memory),
            s@ == "stack"@ ==> r == Ok::<_, StatementVisitorError>(VariableLocation::Stack),
            s@ == "calldata"@ ==> r == Ok::<_, StatementVisitorError>(VariableLocation::Calldata),
            s@ == "default"@ ==> r == Ok::<_, StatementVisitorError>(default),
            !(s@ == "storage"@ || s@ == "memory"@ || s@ == "stack"@ || s@ == "calldata"@ || s@
                == "default"@) ==> (r matches Err(StatementVisitorError::UnexpectedStorageLocation(
                t,
            )) && t@ == s@),
    {
        proof {
            reveal_strlit("storage");
            reveal_strlit("memory");
            reveal_strlit("stack");
            reveal_strlit("calldata");
            reveal_strlit("default");
            assert("storage"@.len() == 7 && "memory"@.len() == 6 && "stack"@.len() == 5);
            assert("calldata"@.len() == 8 && "default"@.len() == 7);
            assert("storage"@[0] != "default"@[0]);
        }
        if str_eq(s, "storage") {
            Ok(VariableLocation::Storage)
        } else if str_eq(s, "memory") {
            Ok(VariableLocation::Memory)
        } else if str_eq(s, "stack") {
            Ok(VariableLocation::Stack)
        } else if str_eq(s, "calldata") {
            Ok(VariableLocation::Calldata)
        } else if str_eq(s, "default") {
            Ok(default)
        } else {
            Err(StatementVisitorError::UnexpectedStorageLocation(s.to_owned()))
        }
    }
}

/// A variable declared in the traced sources.
#[derive(Debug)]
pub struct Variable {
    pub name: String,
    pub id: u64,
    pub state_variable: bool,
    pub location: VariableLocation,
    pub is_constant: bool,
    /// the syntax tree node of the declared type
    pub declared_type: AstNode,
}

/// Two variables are the same: name, id, place, constness and declared type.
pub open spec fn same_variable(a: Variable, b: Variable) -> bool {
    &&& a.name == b.name
    &&& a.id == b.id
    &&& a.state_variable == b.state_variable
    &&& a.location == b.location
    &&& a.is_constant == b.is_constant
    &&& same_node(a.declared_type, b.declared_type)
}

/// Two lists of variables are the same, variable by variable.
pub open spec fn same_variables(a: Seq<Variable>, b: Seq<Variable>) -> bool {
    &&& a.len() == b.len()
    &&& forall|i: int| 0 <= i < a.len() ==> same_variable(#[trigger] a[i], b[i])
}

/// A copy of a variable.
pub fn clone_variable(v: &Variable) -> (r: Variable)
    ensures
        same_variable(r, *v),
{
    Variable {
        name: v.name.clone(),
        id: v.id,
        state_variable: v.state_variable,
        location: v.location,
        is_constant: v.is_constant,
        declared_type: clone_node(&v.declared_type),
    }
}

/// The state of the machine at a step.
#[derive(Clone, Debug)]
pub struct StateSnapshot {
    pub memory: Vec<u8>,
    pub stack: Vec<Vec<u8>>,
    /// `(slot, value)` pairs of the contract storage
    pub storage: Vec<(Vec<u8>, Vec<u8>)>,
}

/// One step of the trace.
#[derive(Clone, Debug)]
pub struct DebugStep {
    pub location: SourceLocation,
    pub variables_in_scope: Vec<usize>,
    pub path: String,
    /// indices of the steps that called into the function of this step, outermost first
    pub call_trace: Vec<usize>,
    pub kind: StepKind,
    pub state_snapshot: StateSnapshot,
}

/// A frame of the displayed stack.
#[derive(Clone, Debug)]
pub struct StackFrame {
    pub parent_func: String,
    pub path: String,
    pub location: SourceLocation,
}

/// The stack displayed at a step.
#[derive(Clone, Debug)]
pub struct DebugTraceStep {
    pub stack_frames: Vec<StackFrame>,
}

/// The trace of a test run.
#[derive(Debug)]
pub struct DebugTrace {
    pub steps: Vec<DebugStep>,
    /// the variables of the traced contracts, by id
    pub variables: HashMap<u64, Variable>,
    /// where the parameters and local variables are during the run, by id
    pub assignments: HashMap<u64, Assignment>,
    /// how long each phase of building the trace took, in order
    pub metrics: Vec<(Action, Duration)>,
}

/// The name of the function that holds step `i` or an earlier one, looking
/// backwards from `i` down to (but not including) step 0 for a function definition
/// whose next step has a call trace of length `target`.
pub open spec fn parent_function_from(steps: Seq<DebugStep>, target: nat, i: int) -> Option<
    Seq<char>,
>
    decreases i,
{
    if i <= 0 {
        None
    } else {
        match steps[i].kind {
            StepKind::FunctionDefinition(name) => if steps[i + 1].call_trace@.len() == target {
                Some(name@)
            } else {
                parent_function_from(steps, target, i - 1)
            },
            _ => parent_function_from(steps, target, i - 1),
        }
    }
}

/// The name of the function of step `i`.
pub open spec fn parent_function(steps: Seq<DebugStep>, i: int) -> Option<Seq<char>> {
    parent_function_from(steps, steps[i].call_trace@.len(), i)
}

/// Step `j` defines a function whose first step (the next one) is at call depth
/// `depth`.
pub open spec fn defines_at_depth(steps: Seq<DebugStep>, j: int, depth: nat) -> bool {
    &&& 0 < j
    &&& j + 1 < steps.len()
    &&& steps[j].kind is FunctionDefinition
    &&& steps[j + 1].call_trace@.len() == depth
}

proof fn lemma_parent_function_from(steps: Seq<DebugStep>, target: nat, i: int)
    requires
        i < steps.len(),
        0 <= i && steps[i].kind is FunctionDefinition ==> i + 1 < steps.len(),
    ensures
        parent_function_from(steps, target, i) matches Some(n) ==> exists|j: int|
            #[trigger] defines_at_depth(steps, j, target) && j <= i && steps[j].kind->FunctionDefinition_0@ == n
                && forall|k: int| j < k <= i ==> !#[trigger] defines_at_depth(steps, k, target),
        parent_function_from(steps, target, i) is None ==> forall|k: int|
            0 < k <= i ==> !#[trigger] defines_at_depth(steps, k, target),
    decreases i,
{
    if i > 0 {
        lemma_parent_function_from(steps, target, i - 1);
        if let Some(n) = parent_function_from(steps, target, i) {
            if defines_at_depth(steps, i, target) {
                assert(defines_at_depth(steps, i, target) && i <= i);
            } else {
                let j = choose|j: int|
                    #[trigger] defines_at_depth(steps, j, target) && j <= i - 1
                        && steps[j].kind->FunctionDefinition_0@ == n && forall|k: int|
                        j < k <= i - 1 ==> !#[trigger] defines_at_depth(steps, k, target);
                assert forall|k: int| j < k <= i implies !#[trigger] defines_at_depth(steps, k, target) by {
                    if k < i {
                    }
                }
            }
        }
    }
}

/// The function that step `i` belongs to is that of the nearest definition, at
/// or before `i` (and after the first step), whose first step is at the call
/// depth of step `i`; no definition after it up to `i` is at that depth, and
/// there is no function where none is. A definition whose next step is deeper
/// (a function called from there and already returned) is never the answer.
pub proof fn law_parent_function_is_nearest_definition_at_depth(steps: Seq<DebugStep>, i: int)
    requires
        parent_lookup_ok(steps, i),
    ensures
        ({
            let depth = steps[i].call_trace@.len();
            &&& parent_function(steps, i) matches Some(n) ==> exists|j: int|
                #[trigger] defines_at_depth(steps, j, depth) && j <= i && steps[j].kind->FunctionDefinition_0@ == n
                    && forall|k: int| j < k <= i ==> !#[trigger] defines_at_depth(steps, k, depth)
            &&& parent_function(steps, i) is None ==> forall|k: int|
                0 < k <= i ==> !#[trigger] defines_at_depth(steps, k, depth)
        }),
{
    lemma_parent_function_from(steps, steps[i].call_trace@.len(), i);
}

/// Whether the parent function of step `i` can be looked up: the step exists and
/// is not a function definition that ends the trace.
pub open spec fn parent_lookup_ok(steps: Seq<DebugStep>, i: int) -> bool {
    &&& 0 <= i < steps.len()
    &&& !(i + 1 == steps.len() && steps[i].kind is FunctionDefinition)
}

pub open spec fn option_chars(o: Option<String>) -> Option<Seq<char>> {
    match o {
        Some(s) => Some(s@),
        None => None,
    }
}

/// The entries of a call trace that are not the outermost dummy entry 0.
pub open spec fn nonzero_entries(ct: Seq<usize>) -> Seq<usize>
    decreases ct.len(),
{
    if ct.len() == 0 {
        seq![]
    } else {
        nonzero_entries(ct.drop_last()) + if ct.last() != 0 {
            seq![ct.last()]
        } else {
            seq![]
        }
    }
}

/// `f` is the frame of step `j`, its function named `default` where no name is found.
pub open spec fn is_frame_of(f: StackFrame, steps: Seq<DebugStep>, j: int, default: Seq<char>) -> bool {
    &&& f.path == steps[j].path
    &&& f.location == steps[j].location
    &&& f.parent_func@ == match parent_function(steps, j) {
        Some(n) => n,
        None => default,
    }
}

/// `r` is the stack at step `indx`: a frame for each caller in the call trace of
/// the step (without the entry 0), then the frame of the step itself.
pub open spec fn is_stack_at(steps: Seq<DebugStep>, indx: int, r: DebugTraceStep) -> bool {
    let callers = nonzero_entries(steps[indx].call_trace@);
    &&& r.stack_frames@.len() == callers.len() + 1
    &&& forall|k: int|
        0 <= k < callers.len() ==> is_frame_of(
            #[trigger] r.stack_frames@[k],
            steps,
            callers[k] as int,
            "unknown a"@,
        )
    &&& is_frame_of(r.stack_frames@[callers.len() as int], steps, indx, "unknown b"@)
}

/// The steps on which `trace` can be computed: every caller in the call trace is a
/// function call step of the trace.
pub open spec fn trace_ok(steps: Seq<DebugStep>, indx: int) -> bool {
    &&& parent_lookup_ok(steps, indx)
    &&& forall|k: int|
        0 <= k < steps[indx].call_trace@.len() && #[trigger] steps[indx].call_trace@[k] != 0 ==> {
            &&& steps[indx].call_trace@[k] < steps.len()
            &&& steps[steps[indx].call_trace@[k] as int].kind is FunctionCall
        }
}

/// Names of the variables that the test framework itself declares.
pub open spec fn is_forge_name(s: Seq<char>) -> bool {
    ||| s == "VM_ADDRESS"@
    ||| s == "CONSOLE"@
    ||| s == "CREATE2_FACTORY"@
    ||| s == "DEFAULT_SENDER"@
    ||| s == "DEFAULT_TEST_CONTRACT"@
    ||| s == "MULTICALL3_ADDRESS"@
    ||| s == "SECP256K1_ORDER"@
    ||| s == "UINT256_MAX"@
    ||| s == "vm"@
    ||| s == "stdstore"@
    ||| s == "_failed"@
    ||| s == "stdChainsInitialized"@
    ||| s == "chains"@
    ||| s == "defaultRpcUrls"@
    ||| s == "idToAlias"@
    ||| s == "fallbackToDefaultRpcUrls"@
    ||| s == "UINT256*MAX"@
    ||| s == "gasMeteringOff"@
    ||| s == "CONSOLE2_ADDRESS"@
    ||| s == "_excludedContracts"@
    ||| s == "_excludedSenders"@
    ||| s == "_targetedContracts"@
    ||| s == "_targetedSenders"@
    ||| s == "_excludedArtifacts"@
    ||| s == "_targetedArtifacts"@
    ||| s == "_targetedArtifactSelectors"@
    ||| s == "_excludedSelectors"@
    ||| s == "_targetedSelectors"@
    ||| s == "_targetedInterfaces"@
    ||| s == "multicall"@
    ||| s == "INT256_MIN_ABS"@
    ||| s == "IS_TEST"@
    ||| s == "FAILED_SLOT"@
}

/// Whether `name` is one of the variables of the test framework, which the
/// debugger does not show.
pub fn is_forge_variable(name: &str) -> (r: bool)
    ensures
        r == is_forge_name(name@),
{
    str_eq(name, "VM_ADDRESS") || str_eq(name, "CONSOLE") || str_eq(name, "CREATE2_FACTORY")
        || str_eq(name, "DEFAULT_SENDER") || str_eq(name, "DEFAULT_TEST_CONTRACT") || str_eq(
        name,
        "MULTICALL3_ADDRESS",
    ) || str_eq(name, "SECP256K1_ORDER") || str_eq(name, "UINT256_MAX") || str_eq(name, "vm")
        || str_eq(name, "stdstore") || str_eq(name, "_failed") || str_eq(
        name,
        "stdChainsInitialized",
    ) || str_eq(name, "chains") || str_eq(name, "defaultRpcUrls") || str_eq(name, "idToAlias")
        || str_eq(name, "fallbackToDefaultRpcUrls") || str_eq(name, "UINT256*MAX") || str_eq(
        name,
        "gasMeteringOff",
    ) || str_eq(name, "CONSOLE2_ADDRESS") || str_eq(name, "_excludedContracts") || str_eq(
        name,
        "_excludedSenders",
    ) || str_eq(name, "_targetedContracts") || str_eq(name, "_targetedSenders") || str_eq(
        name,
        "_excludedArtifacts",
    ) || str_eq(name, "_targetedArtifacts") || str_eq(name, "_targetedArtifactSelectors")
        || str_eq(name, "_excludedSelectors") || str_eq(name, "_targetedSelectors") || str_eq(
        name,
        "_targetedInterfaces",
    ) || str_eq(name, "multicall") || str_eq(name, "INT256_MIN_ABS") || str_eq(name, "IS_TEST")
        || str_eq(name, "FAILED_SLOT")
}

/// The variables in scope for the ids `ids`: those the trace declares, without the
/// variables of the test framework, in the order of `ids`.
pub open spec fn scope_variables(vars: Map<u64, Variable>, ids: Seq<usize>) -> Seq<Variable>
    decreases ids.len(),
{
    if ids.len() == 0 {
        seq![]
    } else {
        let id = ids.last() as u64;
        scope_variables(vars, ids.drop_last()) + if vars.contains_key(id) && !is_forge_name(
            vars[id].name@,
        ) {
            seq![vars[id]]
        } else {
            seq![]
        }
    }
}

/// The id at position `j` of `ids` names a variable of `vars` that is not one of
/// the test framework's.
pub open spec fn shown_id(vars: Map<u64, Variable>, ids: Seq<usize>, j: int) -> bool {
    &&& vars.contains_key(ids[j] as u64)
    &&& !is_forge_name(vars[ids[j] as u64].name@)
}

/// `r` lists, at increasing positions `pos` of `ids`, the variables of those
/// ids, each shown, and every shown id of `ids` is among the positions.
pub open spec fn lists_shown(vars: Map<u64, Variable>, ids: Seq<usize>, r: Seq<Variable>, pos: Seq<int>) -> bool {
    &&& pos.len() == r.len()
    &&& forall|k: int|
        0 <= k < pos.len() ==> 0 <= #[trigger] pos[k] < ids.len() && shown_id(vars, ids, pos[k]) && r[k]
            == vars[ids[pos[k]] as u64]
    &&& forall|k1: int, k2: int| 0 <= k1 < k2 < pos.len() ==> #[trigger] pos[k1] < #[trigger] pos[k2]
    &&& forall|j: int| 0 <= j < ids.len() && shown_id(vars, ids, j) ==> #[trigger] pos.contains(j)
}

/// The variables in scope for the ids `ids` are exactly the variables those ids
/// name, in the order of `ids`, without those of the test framework: none of
/// them has a name of the test framework, and every id that names a variable of
/// another name is listed.
pub proof fn law_scope_lists_declared_variables_without_framework_ones(vars: Map<u64, Variable>, ids: Seq<usize>)
    ensures
        forall|k: int|
            0 <= k < scope_variables(vars, ids).len() ==> !is_forge_name(
                (#[trigger] scope_variables(vars, ids)[k]).name@,
            ),
        exists|pos: Seq<int>| #[trigger] lists_shown(vars, ids, scope_variables(vars, ids), pos),
    decreases ids.len(),
{
    let r = scope_variables(vars, ids);
    if ids.len() == 0 {
        let pos: Seq<int> = seq![];
        assert(lists_shown(vars, ids, r, pos));
    } else {
        let p = ids.drop_last();
        law_scope_lists_declared_variables_without_framework_ones(vars, p);
        let r0 = scope_variables(vars, p);
        let pos0 = choose|pos: Seq<int>| #[trigger] lists_shown(vars, p, r0, pos);
        let n = ids.len() - 1;
        assert forall|j: int| 0 <= j < n implies #[trigger] p[j] == ids[j] by {}
        if shown_id(vars, ids, n) {
            let pos = pos0.push(n);
            assert(r == r0.push(vars[ids[n] as u64]));
            assert forall|k: int| 0 <= k < pos.len() implies 0 <= #[trigger] pos[k] < ids.len() && shown_id(
                vars,
                ids,
                pos[k],
            ) && r[k] == vars[ids[pos[k]] as u64] by {
                if k < pos0.len() {
                    assert(pos[k] == pos0[k]);
                    assert(p[pos0[k]] == ids[pos0[k]]);
                }
            }
            assert forall|k1: int, k2: int| 0 <= k1 < k2 < pos.len() implies #[trigger] pos[k1] < #[trigger] pos[k2] by {
                if k2 < pos0.len() {
                    assert(pos[k1] == pos0[k1] && pos[k2] == pos0[k2]);
                } else {
                    assert(pos[k1] == pos0[k1]);
                }
            }
            assert forall|j: int| 0 <= j < ids.len() && shown_id(vars, ids, j) implies #[trigger] pos.contains(j) by {
                if j < n {
                    assert(p[j] == ids[j]);
                    assert(shown_id(vars, p, j));
                    assert(pos0.contains(j));
                    let k = choose|k: int| 0 <= k < pos0.len() && pos0[k] == j;
                    assert(pos[k] == j);
                } else {
                    assert(pos[pos.len() - 1] == j);
                }
            }
            assert(lists_shown(vars, ids, r, pos));
        } else {
            assert(r == r0 + Seq::<Variable>::empty());
            assert(r =~= r0);
            assert forall|k: int| 0 <= k < pos0.len() implies 0 <= #[trigger] pos0[k] < ids.len() && shown_id(
                vars,
                ids,
                pos0[k],
            ) && r[k] == vars[ids[pos0[k]] as u64] by {
                assert(p[pos0[k]] == ids[pos0[k]]);
            }
            assert forall|j: int| 0 <= j < ids.len() && shown_id(vars, ids, j) implies #[trigger] pos0.contains(j) by {
                assert(j < n);
                assert(p[j] == ids[j]);
                assert(shown_id(vars, p, j));
            }
            assert(lists_shown(vars, ids, r, pos0));
        }
        assert forall|k: int| 0 <= k < r.len() implies !is_forge_name((#[trigger] r[k]).name@) by {
            let pos = choose|pos: Seq<int>| #[trigger] lists_shown(vars, ids, r, pos);
            assert(shown_id(vars, ids, pos[k]));
        }
    }
}

fn new_stack_frame(step: &DebugStep, parent_func: String) -> (r: StackFrame)
    ensures
        r.parent_func == parent_func,
        r.path == step.path,
        r.location == step.location,
{
    StackFrame { parent_func, location: step.location, path: step.path.clone() }
}

impl DebugTrace {
    /// The name of the function that step `step_index` belongs to: the nearest
    /// earlier function definition whose first step is at the same call depth.
    pub fn find_parent_function_name(&self, step_index: usize) -> (r: Option<String>)
        requires
            parent_lookup_ok(self.steps@, step_index as int),
        ensures
            option_chars(r) == parent_function(self.steps@, step_index as int),
    {
        let call_trace_len = self.steps[step_index].call_trace.len();
        let ghost steps = self.steps@;

        let mut current_index = step_index;
        while current_index > 0
            invariant
                steps == self.steps@,
                parent_lookup_ok(steps, step_index as int),
                current_index <= step_index,
                step_index < self.steps.len(),
                call_trace_len == steps[step_index as int].call_trace@.len(),
                parent_function_from(steps, call_trace_len as nat, current_index as int)
                    == parent_function(steps, step_index as int),
            decreases current_index,
        {
            let step = &self.steps[current_index];
            if let StepKind::FunctionDefinition(name) = &step.kind {
                // the call trace only grows on the first statement of the function
                let next_step = &self.steps[current_index + 1];
                if next_step.call_trace.len() == call_trace_len {
                    return Some(name.clone());
                }
            }
            current_index -= 1;
        }
        None
    }

    /// The stack of frames at step `indx`: one frame per caller in its call trace
    /// (without the outermost entry 0), then the frame of the step itself.
    pub fn trace(&self, indx: usize) -> (r: DebugTraceStep)
        requires
            trace_ok(self.steps@, indx as int),
        ensures
            is_stack_at(self.steps@, indx as int, r),
    {
        let ghost steps = self.steps@;
        let step = &self.steps[indx];
        let ghost ct = step.call_trace@;
        let mut call_trace: Vec<StackFrame> = Vec::new();

        for i in 0..step.call_trace.len()
            invariant
                steps == self.steps@,
                trace_ok(steps, indx as int),
                step == &steps[indx as int],
                ct == step.call_trace@,
                call_trace@.len() == nonzero_entries(ct.take(i as int)).len(),
                forall|k: int|
                    0 <= k < call_trace@.len() ==> is_frame_of(
                        #[trigger] call_trace@[k],
                        steps,
                        nonzero_entries(ct.take(i as int))[k] as int,
                        "unknown a"@,
                    ),
        {
            assert(ct.take(i + 1).drop_last() =~= ct.take(i as int));
            assert(ct.take(i + 1).last() == ct[i as int]);
            let step_trace = step.call_trace[i];
            if step_trace != 0 {
                let parent_step = &self.steps[step_trace];
                let parent_func = match self.find_parent_function_name(step_trace) {
                    Some(name) => name,
                    None => String::from_str("unknown a"),
                };
                call_trace.push(new_stack_frame(parent_step, parent_func));
            }
        }
        assert(ct.take(ct.len() as int) =~= ct);

        let parent_func = match self.find_parent_function_name(indx) {
            Some(name) => name,
            None => String::from_str("unknown b"),
        };
        call_trace.push(new_stack_frame(step, parent_func));

        DebugTraceStep { stack_frames: call_trace }
    }

    /// The variables in scope at step `indx`, without those of the test framework.
    pub fn scope(&self, indx: usize) -> (r: Vec<Variable>)
        requires
            indx < self.steps@.len(),
        ensures
            same_variables(r@, scope_variables(self.variables@, self.steps@[indx as int].variables_in_scope@)),
    {
        let step = &self.steps[indx];
        let ghost ids = step.variables_in_scope@;
        let mut out: Vec<Variable> = Vec::new();
        for i in 0..step.variables_in_scope.len()
            invariant
                step == &self.steps@[indx as int],
                ids == step.variables_in_scope@,
                same_variables(out@, scope_variables(self.variables@, ids.take(i as int))),
        {
            assert(ids.take(i + 1).drop_last() =~= ids.take(i as int));
            assert(ids.take(i + 1).last() == ids[i as int]);
            let id = step.variables_in_scope[i] as u64;
            match self.variables.get(&id) {
                Some(var) => {
                    if !is_forge_variable(var.name.as_str()) {
                        out.push(clone_variable(var));
                    }
                },
                None => {},
            }
        }
        assert(ids.take(ids.len() as int) =~= ids);
        out
    }
}

} // verus!

verus! {

/// The `REVERT` opcode.
pub const REVERT: u8 = 0xfd;

/// The `CREATE` opcode.
pub const CREATE: u8 = 0xf0;

/// The `CALL` opcode.
pub const CALL: u8 = 0xf1;

/// Whether `op` calls or creates a contract.
pub fn is_call_op_code(op: u8) -> (r: bool)
    ensures
        r == (op == CALL || op == CREATE),
{
    op == CALL || op == CREATE
}

/// The number of immediate bytes that follow opcode `op` (`PUSH1` to `PUSH32`).
pub open spec fn push_size(op: u8) -> nat {
    if 0x60 <= op <= 0x7f {
        (op - 0x60 + 1) as nat
    } else {
        0
    }
}

/// The entries of the map for the instructions from program counter `pc` on,
/// where `pc` starts instruction number `ic`, added to `m`: program counter to
/// instruction number where `pc_first`, instruction number to program counter
/// otherwise.
pub open spec fn instruction_map_from(
    code: Seq<u8>,
    pc_first: bool,
    pc: int,
    ic: int,
    m: Map<usize, usize>,
) -> Map<usize, usize>
    decreases code.len() + 33 - pc,
{
    if pc < 0 || pc >= code.len() {
        m
    } else {
        let m2 = if pc_first {
            m.insert(pc as usize, ic as usize)
        } else {
            m.insert(ic as usize, pc as usize)
        };
        instruction_map_from(code, pc_first, pc + 1 + push_size(code[pc]), ic + 1, m2)
    }
}

/// The map between program counters and instruction numbers of `code`.
pub open spec fn instruction_map(code: Seq<u8>, pc_first: bool) -> Map<usize, usize> {
    instruction_map_from(code, pc_first, 0, 0, Map::empty())
}

/// Builds the map between the program counters of `code` that start an instruction
/// and the instruction numbers: program counter to instruction number where
/// `PC_FIRST`, the other way round otherwise.
pub fn make_map<const PC_FIRST: bool>(code: &[u8]) -> (r: HashMap<usize, usize>)
    requires
        code@.len() + 33 <= usize::MAX,
    ensures
        r@ == instruction_map(code@, PC_FIRST),
        r@.len() == instruction_map(code@, !PC_FIRST).len(),
{
    proof {
        law_pc_ic_maps_are_inverse(code@);
    }
    let mut map: HashMap<usize, usize> = HashMap::new();

    let mut pc: usize = 0;
    let mut cumulative_push_size: usize = 0;
    let ghost mut ic: int = 0;
    while pc < code.len()
        invariant
            code@.len() + 33 <= usize::MAX,
            pc <= code@.len() + 33,
            cumulative_push_size <= pc,
            ic == pc - cumulative_push_size,
            instruction_map_from(code@, PC_FIRST, pc as int, ic, map@) == instruction_map(
                code@,
                PC_FIRST,
            ),
        decreases code@.len() + 33 - pc,
    {
        let ic_now = pc - cumulative_push_size;
        if PC_FIRST {
            map.insert(pc, ic_now);
        } else {
            map.insert(ic_now, pc);
        }

        // PUSH1 (0x60) to PUSH32 (0x7f) carry 1 to 32 bytes of data
        let current_byte = code[pc];
        if 0x60 <= current_byte && current_byte <= 0x7f {
            let push_size = (current_byte - 0x60 + 1) as usize;
            pc += push_size;
            cumulative_push_size += push_size;
        }
        pc += 1;
        proof {
            ic = ic + 1;
        }
    }
    map
}

/// Maps the program counter of each instruction to its instruction number.
#[derive(Clone, Debug)]
pub struct PcIcMap {
    pub inner: HashMap<usize, usize>,
}

impl PcIcMap {
    pub fn new(code: &[u8]) -> (r: Self)
        requires
            code@.len() + 33 <= usize::MAX,
        ensures
            r.inner@ == instruction_map(code@, true),
    {
        PcIcMap { inner: make_map::<true>(code) }
    }

    /// The instruction number of the instruction at program counter `pc`.
    pub fn get(&self, pc: usize) -> (r: Option<usize>)
        ensures
            r == (if self.inner@.contains_key(pc) {
                Some(self.inner@[pc])
            } else {
                None
            }),
    {
        match self.inner.get(&pc) {
            Some(ic) => Some(*ic),
            None => None,
        }
    }
}

/// Maps from program counter to instruction counter.
#[derive(Clone, Debug)]
pub struct IcPcMap {
    pub inner: HashMap<usize, usize>,
}

impl IcPcMap {
    pub fn new(code: &[u8]) -> (r: Self)
        requires
            code@.len() + 33 <= usize::MAX,
        ensures
            r.inner@ == instruction_map(code@, true),
    {
        IcPcMap { inner: make_map::<true>(code) }
    }

    /// The instruction counter of the instruction at program counter `pc`.
    pub fn get(&self, pc: usize) -> (r: Option<usize>)
        ensures
            r == (if self.inner@.contains_key(pc) {
                Some(self.inner@[pc])
            } else {
                None
            }),
    {
        match self.inner.get(&pc) {
            Some(ic) => Some(*ic),
            None => None,
        }
    }
}


/// `m1` and `m2` are inverse maps.
pub open spec fn inverse_maps(m1: Map<usize, usize>, m2: Map<usize, usize>) -> bool {
    &&& forall|a: usize| #[trigger] m1.contains_key(a) ==> m2.contains_key(m1[a]) && m2[m1[a]] == a
    &&& forall|b: usize| #[trigger] m2.contains_key(b) ==> m1.contains_key(m2[b]) && m1[m2[b]] == b
}

proof fn lemma_instruction_maps_inverse(
    code: Seq<u8>,
    pc: int,
    ic: int,
    m1: Map<usize, usize>,
    m2: Map<usize, usize>,
)
    requires
        code.len() + 33 <= usize::MAX,
        0 <= ic <= pc <= code.len() + 33,
        inverse_maps(m1, m2),
        forall|a: usize| #[trigger] m1.contains_key(a) ==> a < pc && a < code.len(),
        forall|b: usize| #[trigger] m2.contains_key(b) ==> b < ic,
        m1.dom().finite(),
        m2.dom().finite(),
        m1.len() == m2.len(),
    ensures
        inverse_maps(
            instruction_map_from(code, true, pc, ic, m1),
            instruction_map_from(code, false, pc, ic, m2),
        ),
        instruction_map_from(code, true, pc, ic, m1).len() == instruction_map_from(code, false, pc, ic, m2).len(),
        forall|a: usize| #[trigger] instruction_map_from(code, true, pc, ic, m1).contains_key(a) ==> a < code.len(),
    decreases code.len() + 33 - pc,
{
    if pc < code.len() {
        let n1 = m1.insert(pc as usize, ic as usize);
        let n2 = m2.insert(ic as usize, pc as usize);
        assert(!m1.contains_key(pc as usize));
        assert(!m2.contains_key(ic as usize));
        assert(inverse_maps(n1, n2));
        assert(n1.dom() =~= m1.dom().insert(pc as usize));
        assert(n2.dom() =~= m2.dom().insert(ic as usize));
        lemma_instruction_maps_inverse(code, pc + 1 + push_size(code[pc]), ic + 1, n1, n2);
    }
}

/// The map from program counters to instruction numbers and the map from
/// instruction numbers to program counters are inverse to each other, have
/// the same number of entries, and hold only program counters inside the code.
pub proof fn law_pc_ic_maps_are_inverse(code: Seq<u8>)
    requires
        code.len() + 33 <= usize::MAX,
    ensures
        inverse_maps(instruction_map(code, true), instruction_map(code, false)),
        instruction_map(code, true).len() == instruction_map(code, false).len(),
        forall|pc: usize| #[trigger] instruction_map(code, true).contains_key(pc) ==> pc < code.len(),
{
    assert(Map::<usize, usize>::empty().dom() =~= Set::<usize>::empty());
    lemma_instruction_maps_inverse(code, 0, 0, Map::empty(), Map::empty());
}

} // verus!
