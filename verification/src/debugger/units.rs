//! What the debugger knows of a contract: its functions, their blocks and
//! statements with their source ranges, and the source maps that tie the
//! instructions of its bytecode to those ranges.
use foundry_compilers::artifacts::sourcemap::Jump as MapJump;
use vstd::prelude::*;

use crate::debugger::tracer::{
    clone_variable, same_variables, IcPcMap, PcIcMap, SourceLocation, Variable,
};

verus! {

/// How an instruction moves between functions, as the source map marks it.
#[derive(Clone, Copy, Debug, PartialEq, Eq, Structural)]
pub enum Jump {
    In,
    Out,
    Regular,
}

/// One entry of a source map: the source range of an instruction, the source
/// file it is in (`-1` where it is in none) and how it jumps.
#[derive(Clone, Copy, Debug, PartialEq, Eq, Structural)]
pub struct SourceElement {
    pub offset: u32,
    pub length: u32,
    pub index: i32,
    pub jump: Jump,
}

impl SourceElement {
    /// The source file of the instruction, where it is in one.
    pub fn index(&self) -> (r: Option<u32>)
        ensures
            r == (if self.index == -1 {
                None
            } else {
                Some(self.index as u32)
            }),
    {
        if self.index == -1 {
            None
        } else {
            Some(self.index as u32)
        }
    }
}

/// Two source map entries cover the same range of the same file.
pub open spec fn same_range(a: SourceElement, b: SourceElement) -> bool {
    a.offset == b.offset && a.length == b.length && a.index == b.index
}

/// Whether two source map entries cover the same range of the same file.
pub fn source_element_matches(a: &SourceElement, b: &SourceElement) -> (r: bool)
    ensures
        r == same_range(*a, *b),
{
    a.offset == b.offset && a.length == b.length && a.index == b.index
}

/// A range of the source, by its first byte and its length.
#[derive(Clone, Copy, Debug, PartialEq, Eq, Structural)]
pub struct SourceLocationHelper {
    pub start: usize,
    pub length: usize,
}

pub open spec fn loc_matches(h: SourceLocationHelper, loc: SourceElement) -> bool {
    h.start == loc.offset as usize && h.length == loc.length as usize
}

impl SourceLocationHelper {
    /// Whether the source map entry covers exactly this range.
    pub fn matches(&self, loc: &SourceElement) -> (r: bool)
        ensures
            r == loc_matches(*self, *loc),
    {
        self.start == loc.offset as usize && self.length == loc.length as usize
    }
}

/// What a statement does.
#[derive(Clone, Copy, Debug, PartialEq, Eq, Structural)]
pub enum InstructionKind {
    /// declares the variable with this id
    VariableDeclaration(usize),
    Statement,
    FunctionCall,
}

/// A statement of a function body.
#[derive(Clone, Copy, Debug, PartialEq, Eq, Structural)]
pub struct Instruction {
    pub location: SourceLocation,
    pub kind: InstructionKind,
    pub loc: SourceLocationHelper,
}

/// A block of statements, with the blocks nested in it.
#[derive(Debug)]
pub struct Block {
    pub variables: Vec<usize>,
    /// the condition of an `if` or a loop
    pub condition: Option<Instruction>,
    pub instructions: Vec<Instruction>,
    /// nested blocks (bodies of `if`, `else` and loops)
    pub scopes: Vec<Block>,
    pub location: SourceLocation,
}

/// What a function of a contract is.
#[derive(Clone, Copy, Debug, PartialEq, Eq, Structural)]
pub enum FunctionKind {
    Constructor,
    Function,
    Modifier,
}

/// A function of a contract.
#[derive(Debug)]
pub struct Function {
    pub name: String,
    pub kind: FunctionKind,
    pub root_block: Block,
    pub parameters: Vec<Variable>,
    pub loc: SourceLocationHelper,
}

/// What a source map entry points at: a function or one of its statements.
#[derive(Debug)]
pub enum MatchResult {
    Function(Box<Function>),
    Instruction(Instruction),
}

impl MatchResult {
    /// What the match points at, in words: `Function: ` and the function's
    /// name, or `Instruction`.
    pub fn type_string(&self) -> (r: String)
        ensures
            r@ == match self {
                MatchResult::Function(f) => "Function: "@ + f.name@,
                MatchResult::Instruction(_) => "Instruction"@,
            },
    {
        let mut r = String::new();
        proof {
            reveal_strlit("Function: ");
            reveal_strlit("Instruction");
        }
        match self {
            MatchResult::Function(f) => {
                crate::text::push_str(&mut r, "Function: ");
                crate::text::push_str(&mut r, f.name.as_str());
            },
            MatchResult::Instruction(_) => {
                crate::text::push_str(&mut r, "Instruction");
            },
        }
        r
    }
}

/// The source map of a bytecode and the maps between its program counters and
/// instruction numbers.
#[derive(Debug)]
pub struct BytecodeMap {
    pub source_map: Vec<SourceElement>,
    /// program counter to instruction number
    pub _pc_ic_map: IcPcMap,
    /// program counter to instruction number
    pub ic_pc_map: PcIcMap,
}

/// The entries of the compressed source map `text`, as the compiler's source
/// map parser reads them; `None` where it refuses the text.
pub uninterp spec fn parsed_source_map(text: Seq<char>) -> Option<Seq<SourceElement>>;

/// Reads a compressed source map (`s:l:f:j:m;...`) with
/// `foundry_compilers::artifacts::sourcemap::parse`. Trusted: the result is the
/// parser's, each entry converted field by field (its modifier depth is not
/// kept), and `None` where the parser returns an error.
#[verifier::external_body]
fn parse_source_map(text: &str) -> (r: Option<Vec<SourceElement>>)
    ensures
        match parsed_source_map(text@) {
            Some(v) => r matches Some(x) && x@ == v,
            None => r is None,
        },
{
    match foundry_compilers::artifacts::sourcemap::parse(text) {
        Ok(map) => Some(map.iter().map(|e| SourceElement {
            offset: e.offset(), length: e.length(), index: e.index_i32(), jump: match e.jump() {
                MapJump::In => Jump::In, MapJump::Out => Jump::Out, MapJump::Regular => Jump::Regular,
            },
        }).collect()),
        Err(_) => None,
    }
}

impl BytecodeMap {
    /// The maps of `code`, whose compressed source map is `source_map`.
    pub fn new(code: &[u8], source_map: &str) -> (r: Self)
        requires
            code@.len() + 33 <= usize::MAX,
            parsed_source_map(source_map@) is Some,
        ensures
            r.source_map@ == parsed_source_map(source_map@)->0,
            r._pc_ic_map.inner@ == crate::debugger::tracer::instruction_map(code@, true),
            r.ic_pc_map.inner@ == crate::debugger::tracer::instruction_map(code@, true),
    {
        let map = match parse_source_map(source_map) {
            Some(m) => m,
            None => Vec::new(),
        };
        BytecodeMap { source_map: map, _pc_ic_map: IcPcMap::new(code), ic_pc_map: PcIcMap::new(code) }
    }

    /// The maps of `code`, where the compiler's parser reads its source map
    /// `source_map`; `None` where it refuses it.
    pub fn try_new(code: &[u8], source_map: &str) -> (r: Option<Self>)
        requires
            code@.len() + 33 <= usize::MAX,
        ensures
            match parsed_source_map(source_map@) {
                Some(v) => r matches Some(m) && m.source_map@ == v
                    && m._pc_ic_map.inner@ == crate::debugger::tracer::instruction_map(code@, true)
                    && m.ic_pc_map.inner@ == crate::debugger::tracer::instruction_map(code@, true),
                None => r is None,
            },
    {
        match parse_source_map(source_map) {
            Some(_) => Some(BytecodeMap::new(code, source_map)),
            None => None,
        }
    }

    /// A copy of the maps.
    pub fn copy(&self) -> (r: Self)
        ensures
            r.source_map@ == self.source_map@,
            r._pc_ic_map.inner@ == self._pc_ic_map.inner@,
            r.ic_pc_map.inner@ == self.ic_pc_map.inner@,
    {
        let mut source_map: Vec<SourceElement> = Vec::new();
        let mut i: usize = 0;
        while i < self.source_map.len()
            invariant
                i <= self.source_map@.len(),
                source_map@ == self.source_map@.take(i as int),
            decreases self.source_map@.len() - i,
        {
            source_map.push(self.source_map[i]);
            i = i + 1;
            assert(source_map@ =~= self.source_map@.take(i as int));
        }
        assert(self.source_map@.take(i as int) =~= self.source_map@);
        BytecodeMap {
            source_map,
            _pc_ic_map: IcPcMap { inner: self._pc_ic_map.inner.clone() },
            ic_pc_map: PcIcMap { inner: self.ic_pc_map.inner.clone() },
        }
    }
}

/// What the debugger knows of one contract.
#[derive(Debug)]
pub struct DebugUnit {
    pub contract_name: String,
    pub path: String,
    pub location: SourceLocation,
    pub functions: Vec<Function>,
    /// ids of the state variables of the contract
    pub state_variables: Vec<usize>,
    /// every variable that the contract declares
    pub variables: Vec<Variable>,
    pub source_id: u32,
    pub linearized_base_contracts: Vec<usize>,
    pub bytecode: BytecodeMap,
    pub deployed_bytecode: BytecodeMap,
}

/// The ids that the variable declarations among `insts` declare, in order.
pub open spec fn declared_ids(insts: Seq<Instruction>) -> Seq<usize>
    decreases insts.len(),
{
    if insts.len() == 0 {
        seq![]
    } else {
        declared_ids(insts.drop_last()) + match insts.last().kind {
            InstructionKind::VariableDeclaration(id) => seq![id],
            _ => seq![],
        }
    }
}

/// The position of the first of `insts` whose range `loc` covers.
pub open spec fn first_match(insts: Seq<Instruction>, loc: SourceElement) -> Option<int>
    decreases insts.len(),
{
    if insts.len() == 0 {
        None
    } else {
        match first_match(insts.drop_last(), loc) {
            Some(k) => Some(k),
            None => if loc_matches(insts.last().loc, loc) {
                Some(insts.len() - 1)
            } else {
                None
            },
        }
    }
}

/// The statement of block `b` whose range `loc` covers, with the variables in
/// scope there: `vars`, then those declared up to it in the blocks that lead to
/// it. The condition of a block comes first (with none of the block's variables),
/// then its statements, then its nested blocks.
pub open spec fn block_search(b: Block, loc: SourceElement, vars: Seq<usize>) -> Option<
    (Instruction, Seq<usize>),
>
    decreases b,
{
    if b.condition is Some && loc_matches(b.condition->0.loc, loc) {
        Some((b.condition->0, vars))
    } else {
        match first_match(b.instructions@, loc) {
            Some(k) => Some((b.instructions@[k], vars + declared_ids(b.instructions@.take(k + 1)))),
            None => {
                proof {
                    assert(decreases_to!(b => b.scopes));
                    assert(decreases_to!(b.scopes => b.scopes@));
                }
                scopes_search(b.scopes@, loc, vars + declared_ids(b.instructions@))
            },
        }
    }
}

/// The first of the blocks `scopes` that holds a statement whose range `loc`
/// covers, searched as `block_search` does.
pub open spec fn scopes_search(scopes: Seq<Block>, loc: SourceElement, vars: Seq<usize>) -> Option<
    (Instruction, Seq<usize>),
>
    decreases scopes,
{
    if scopes.len() == 0 {
        None
    } else {
        match scopes_search(scopes.drop_last(), loc, vars) {
            Some(r) => Some(r),
            None => block_search(scopes.last(), loc, vars),
        }
    }
}

/// Two blocks hold the same variables, conditions, statements and nested blocks.
pub open spec fn same_block(a: Block, b: Block) -> bool
    decreases a,
{
    &&& a.variables@ == b.variables@
    &&& a.condition == b.condition
    &&& a.instructions@ == b.instructions@
    &&& a.location == b.location
    &&& {
        proof {
            assert(decreases_to!(a => a.scopes));
            assert(decreases_to!(a.scopes => a.scopes@));
        }
        same_blocks(a.scopes@, b.scopes@)
    }
}

/// Two lists of blocks of which each block is the same as the other's.
pub open spec fn same_blocks(a: Seq<Block>, b: Seq<Block>) -> bool
    decreases a,
{
    &&& a.len() == b.len()
    &&& a.len() > 0 ==> same_blocks(a.drop_last(), b.drop_last()) && same_block(a.last(), b.last())
}

/// Two functions are the same.
pub open spec fn same_function(a: Function, b: Function) -> bool {
    &&& a.name == b.name
    &&& a.kind == b.kind
    &&& same_block(a.root_block, b.root_block)
    &&& same_variables(a.parameters@, b.parameters@)
    &&& a.loc == b.loc
}

pub(crate) fn copy_ids(v: &Vec<usize>) -> (r: Vec<usize>)
    ensures
        r@ == v@,
{
    let mut r: Vec<usize> = Vec::new();
    let mut i: usize = 0;
    while i < v.len()
        invariant
            i <= v@.len(),
            r@ == v@.take(i as int),
        decreases v@.len() - i,
    {
        r.push(v[i]);
        i = i + 1;
        assert(r@ =~= v@.take(i as int));
    }
    assert(v@.take(v@.len() as int) =~= v@);
    r
}

fn copy_instructions(v: &Vec<Instruction>) -> (r: Vec<Instruction>)
    ensures
        r@ == v@,
{
    let mut r: Vec<Instruction> = Vec::new();
    let mut i: usize = 0;
    while i < v.len()
        invariant
            i <= v@.len(),
            r@ == v@.take(i as int),
        decreases v@.len() - i,
    {
        r.push(v[i]);
        i = i + 1;
        assert(r@ =~= v@.take(i as int));
    }
    assert(v@.take(v@.len() as int) =~= v@);
    r
}

/// A copy of `b`.
pub fn clone_block(b: &Block) -> (r: Block)
    ensures
        same_block(r, *b),
    decreases b,
{
    let mut scopes: Vec<Block> = Vec::new();
    let mut i: usize = 0;
    while i < b.scopes.len()
        invariant
            i <= b.scopes@.len(),
            same_blocks(scopes@, b.scopes@.take(i as int)),
        decreases b.scopes@.len() - i,
    {
        proof {
            assert(decreases_to!(*b => b.scopes));
            assert(decreases_to!(b.scopes => b.scopes@));
            assert(decreases_to!(b.scopes@ => b.scopes@[i as int]));
        }
        let c = clone_block(&b.scopes[i]);
        let ghost before = scopes@;
        scopes.push(c);
        proof {
            assert(scopes@.drop_last() =~= before);
            assert(b.scopes@.take(i + 1).drop_last() =~= b.scopes@.take(i as int));
        }
        i = i + 1;
    }
    assert(b.scopes@.take(b.scopes@.len() as int) =~= b.scopes@);
    Block {
        variables: copy_ids(&b.variables),
        condition: b.condition,
        instructions: copy_instructions(&b.instructions),
        scopes,
        location: b.location,
    }
}

/// A copy of `f`.
pub fn clone_function(f: &Function) -> (r: Function)
    ensures
        same_function(r, *f),
{
    let mut parameters: Vec<Variable> = Vec::new();
    let mut i: usize = 0;
    while i < f.parameters.len()
        invariant
            i <= f.parameters@.len(),
            same_variables(parameters@, f.parameters@.take(i as int)),
        decreases f.parameters@.len() - i,
    {
        parameters.push(clone_variable(&f.parameters[i]));
        i = i + 1;
    }
    assert(f.parameters@.take(f.parameters@.len() as int) =~= f.parameters@);
    Function {
        name: f.name.clone(),
        kind: f.kind,
        root_block: clone_block(&f.root_block),
        parameters,
        loc: f.loc,
    }
}

/// The statement of `block` whose range `loc` covers, and the variables in scope
/// there (`parent_vars` first); no variables where no statement matches.
fn search_block(block: &Block, loc: &SourceElement, parent_vars: Vec<usize>) -> (r: (
    Option<MatchResult>,
    Vec<usize>,
))
    ensures
        match block_search(*block, *loc, parent_vars@) {
            Some((inst, vars)) => r.0 == Some(MatchResult::Instruction(inst)) && r.1@ == vars,
            None => r.0 is None && r.1@.len() == 0,
        },
    decreases block,
{
    let ghost parent = parent_vars@;
    let mut vars_in_scope = parent_vars;
    if let Some(cond) = &block.condition {
        if cond.loc.matches(loc) {
            return (Some(MatchResult::Instruction(*cond)), vars_in_scope);
        }
    }
    let ghost insts = block.instructions@;
    let n = block.instructions.len();
    let mut i: usize = 0;
    while i < n
        invariant
            insts == block.instructions@,
            parent == parent_vars@,
            !(block.condition is Some && loc_matches(block.condition->0.loc, *loc)),
            n == insts.len(),
            i <= n,
            vars_in_scope@ == parent + declared_ids(insts.take(i as int)),
            first_match(insts.take(i as int), *loc) is None,
        decreases n - i,
    {
        let inst = block.instructions[i];
        assert(insts.take(i + 1).drop_last() =~= insts.take(i as int));
        if let InstructionKind::VariableDeclaration(id) = inst.kind {
            vars_in_scope.push(id);
        }
        assert(vars_in_scope@ =~= parent + declared_ids(insts.take(i + 1)));
        if inst.loc.matches(loc) {
            assert(first_match(insts, *loc) == Some(i as int)) by {
                lemma_first_match_prefix(insts, *loc, i as int + 1);
            }
            assert(inst == insts[i as int]);
            assert(block_search(*block, *loc, parent) == Some((inst, vars_in_scope@)));
            return (Some(MatchResult::Instruction(inst)), vars_in_scope);
        }
        i = i + 1;
    }
    assert(insts.take(n as int) =~= insts);
    let ghost scopes = block.scopes@;
    let m = block.scopes.len();
    let mut j: usize = 0;
    while j < m
        invariant
            scopes == block.scopes@,
            insts == block.instructions@,
            parent == parent_vars@,
            !(block.condition is Some && loc_matches(block.condition->0.loc, *loc)),
            first_match(insts, *loc) is None,
            m == scopes.len(),
            j <= m,
            vars_in_scope@ == parent + declared_ids(insts),
            scopes_search(scopes.take(j as int), *loc, vars_in_scope@) is None,
        decreases m - j,
    {
        proof {
            assert(decreases_to!(*block => block.scopes));
            assert(decreases_to!(block.scopes => block.scopes@));
            assert(decreases_to!(block.scopes@ => block.scopes@[j as int]));
            assert(scopes.take(j + 1).drop_last() =~= scopes.take(j as int));
        }
        let (res, vars) = search_block(&block.scopes[j], loc, copy_ids(&vars_in_scope));
        if res.is_some() {
            assert(scopes_search(scopes, *loc, vars_in_scope@) == block_search(
                scopes[j as int],
                *loc,
                vars_in_scope@,
            )) by {
                lemma_scopes_search_prefix(scopes, *loc, vars_in_scope@, j as int + 1);
            }
            assert(block_search(*block, *loc, parent) == scopes_search(scopes, *loc, vars_in_scope@));
            return (res, vars);
        }
        j = j + 1;
    }
    assert(scopes.take(m as int) =~= scopes);
    (None, Vec::new())
}

/// A match in a prefix of the statements is the match in all of them.
proof fn lemma_first_match_prefix(insts: Seq<Instruction>, loc: SourceElement, k: int)
    requires
        0 <= k <= insts.len(),
        first_match(insts.take(k), loc) is Some,
    ensures
        first_match(insts, loc) == first_match(insts.take(k), loc),
    decreases insts.len() - k,
{
    if k < insts.len() {
        assert(insts.take(k + 1).drop_last() =~= insts.take(k));
        lemma_first_match_prefix(insts, loc, k + 1);
    } else {
        assert(insts.take(k) =~= insts);
    }
}

/// A match in a prefix of the blocks is the match in all of them.
proof fn lemma_scopes_search_prefix(scopes: Seq<Block>, loc: SourceElement, vars: Seq<usize>, k: int)
    requires
        0 <= k <= scopes.len(),
        scopes_search(scopes.take(k), loc, vars) is Some,
    ensures
        scopes_search(scopes, loc, vars) == scopes_search(scopes.take(k), loc, vars),
    decreases scopes.len() - k,
{
    if k < scopes.len() {
        assert(scopes.take(k + 1).drop_last() =~= scopes.take(k));
        lemma_scopes_search_prefix(scopes, loc, vars, k + 1);
    } else {
        assert(scopes.take(k) =~= scopes);
    }
}

/// What a source map entry points at in a unit: the function whose range it
/// covers (by position in the unit) or a statement.
pub enum Matched {
    Function(usize),
    Instruction(Instruction),
}

/// The variables in scope in function `f` of a unit whose state variables are
/// `state`: those, then the parameters of `f`.
pub open spec fn function_vars(state: Seq<usize>, f: Function) -> Seq<usize> {
    state + f.parameters@.map_values(|p: Variable| p.id as usize)
}

/// What `loc` points at among the functions `fs`: the first function whose range
/// it covers or that holds a statement whose range it covers, each function
/// tried whole (its own range first) before the next.
pub open spec fn unit_search(fs: Seq<Function>, state: Seq<usize>, loc: SourceElement) -> Option<
    (Matched, Seq<usize>),
>
    decreases fs.len(),
{
    if fs.len() == 0 {
        None
    } else {
        match unit_search(fs.drop_last(), state, loc) {
            Some(r) => Some(r),
            None => {
                let f = fs.last();
                let vars = function_vars(state, f);
                if loc_matches(f.loc, loc) {
                    Some((Matched::Function((fs.len() - 1) as usize), vars))
                } else {
                    match block_search(f.root_block, loc, vars) {
                        Some((inst, v)) => Some((Matched::Instruction(inst), v)),
                        None => None,
                    }
                }
            },
        }
    }
}

proof fn lemma_unit_search_prefix(fs: Seq<Function>, state: Seq<usize>, loc: SourceElement, k: int)
    requires
        0 <= k <= fs.len(),
        unit_search(fs.take(k), state, loc) is Some,
    ensures
        unit_search(fs, state, loc) == unit_search(fs.take(k), state, loc),
    decreases fs.len() - k,
{
    if k < fs.len() {
        assert(fs.take(k + 1).drop_last() =~= fs.take(k));
        lemma_unit_search_prefix(fs, state, loc, k + 1);
    } else {
        assert(fs.take(k) =~= fs);
    }
}

impl DebugUnit {
    /// What the source map entry `loc` points at: a function of the unit or a
    /// statement of one, with the variables in scope there (the state variables,
    /// the parameters of the function, then those declared up to the statement).
    pub fn match_location(&self, loc: &SourceElement) -> (r: (Option<MatchResult>, Vec<usize>))
        ensures
            match unit_search(self.functions@, self.state_variables@, *loc) {
                Some((Matched::Function(i), vars)) => r.0 matches Some(MatchResult::Function(f))
                    && same_function(*f, self.functions@[i as int]) && r.1@ == vars,
                Some((Matched::Instruction(inst), vars)) => r.0 == Some(
                    MatchResult::Instruction(inst),
                ) && r.1@ == vars,
                None => r.0 is None && r.1@.len() == 0,
            },
    {
        let ghost fs = self.functions@;
        let ghost state = self.state_variables@;
        let n = self.functions.len();
        let mut i: usize = 0;
        while i < n
            invariant
                fs == self.functions@,
                state == self.state_variables@,
                n == fs.len(),
                i <= n,
                unit_search(fs.take(i as int), state, *loc) is None,
            decreases n - i,
        {
            let func = &self.functions[i];
            assert(fs.take(i + 1).drop_last() =~= fs.take(i as int));
            assert(fs.take(i + 1).last() == fs[i as int]);
            let mut vars_in_scope = copy_ids(&self.state_variables);
            let mut k: usize = 0;
            while k < func.parameters.len()
                invariant
                    k <= func.parameters@.len(),
                    vars_in_scope@ == state + func.parameters@.take(k as int).map_values(
                        |p: Variable| p.id as usize,
                    ),
                decreases func.parameters@.len() - k,
            {
                vars_in_scope.push(func.parameters[k].id as usize);
                k = k + 1;
                assert(vars_in_scope@ =~= state + func.parameters@.take(k as int).map_values(
                    |p: Variable| p.id as usize,
                ));
            }
            assert(func.parameters@.take(func.parameters@.len() as int) =~= func.parameters@);
            assert(vars_in_scope@ == function_vars(state, *func));
            if func.loc.matches(loc) {
                proof {
                    lemma_unit_search_prefix(fs, state, *loc, i as int + 1);
                }
                return (Some(MatchResult::Function(Box::new(clone_function(func)))), vars_in_scope);
            }
            let (res, vars) = search_block(&func.root_block, loc, vars_in_scope);
            if res.is_some() {
                proof {
                    lemma_unit_search_prefix(fs, state, *loc, i as int + 1);
                }
                return (res, vars);
            }
            i = i + 1;
        }
        assert(fs.take(n as int) =~= fs);
        (None, Vec::new())
    }
}


/// Some condition or statement of block `b`, or of a block nested in it, has
/// the range that `loc` covers.
pub open spec fn block_has(b: Block, loc: SourceElement) -> bool
    decreases b,
{
    ||| b.condition is Some && loc_matches(b.condition->0.loc, loc)
    ||| exists|i: int| 0 <= i < b.instructions@.len() && loc_matches(#[trigger] b.instructions@[i].loc, loc)
    ||| {
        proof {
            assert(decreases_to!(b => b.scopes));
            assert(decreases_to!(b.scopes => b.scopes@));
        }
        blocks_have(b.scopes@, loc)
    }
}

/// One of the blocks `bs` has the range that `loc` covers.
pub open spec fn blocks_have(bs: Seq<Block>, loc: SourceElement) -> bool
    decreases bs,
{
    bs.len() > 0 && (blocks_have(bs.drop_last(), loc) || block_has(bs.last(), loc))
}

/// The block reached from `b` by following, in order, the positions `path`
/// among the nested blocks; `None` where a position is out of range.
pub open spec fn block_at(b: Block, path: Seq<int>) -> Option<Block>
    decreases path.len(),
{
    if path.len() == 0 {
        Some(b)
    } else if 0 <= path[0] < b.scopes@.len() {
        block_at(b.scopes@[path[0]], path.drop_first())
    } else {
        None
    }
}

/// The variables declared by the blocks that `path` passes through from `b`
/// (all the declarations of each, the block it reaches excluded), in order.
pub open spec fn decls_along(b: Block, path: Seq<int>) -> Seq<usize>
    decreases path.len(),
{
    if path.len() == 0 {
        seq![]
    } else {
        declared_ids(b.instructions@) + decls_along(b.scopes@[path[0]], path.drop_first())
    }
}

/// `inst`, whose range `loc` covers, is the condition or a statement of a block
/// nested in `b` (or of `b` itself), and `v` is `vars`, then the variables
/// declared by the blocks on the way to that block, then (for a statement) those
/// its own statements declare up to and including `inst`.
pub open spec fn found_in(b: Block, loc: SourceElement, inst: Instruction, v: Seq<usize>, vars: Seq<usize>) -> bool {
    &&& loc_matches(inst.loc, loc)
    &&& exists|path: Seq<int>|
        #![trigger block_at(b, path)]
        block_at(b, path) matches Some(t) && {
            ||| t.condition == Some(inst) && v == vars + decls_along(b, path)
            ||| exists|j: int|
                0 <= j < t.instructions@.len() && t.instructions@[j] == inst && v == vars + decls_along(b, path)
                    + declared_ids(#[trigger] t.instructions@.take(j + 1))
        }
}

/// `v` starts with `vars`.
pub open spec fn starts_with(v: Seq<usize>, vars: Seq<usize>) -> bool {
    v.len() >= vars.len() && v.take(vars.len() as int) == vars
}

proof fn lemma_first_match(insts: Seq<Instruction>, loc: SourceElement)
    ensures
        first_match(insts, loc) is None <==> forall|i: int|
            0 <= i < insts.len() ==> !loc_matches(#[trigger] insts[i].loc, loc),
        first_match(insts, loc) matches Some(k) ==> 0 <= k < insts.len() && loc_matches(insts[k].loc, loc),
    decreases insts.len(),
{
    if insts.len() > 0 {
        let p = insts.drop_last();
        lemma_first_match(p, loc);
        if first_match(p, loc) is None && !loc_matches(insts.last().loc, loc) {
            assert forall|i: int| 0 <= i < insts.len() implies !loc_matches(#[trigger] insts[i].loc, loc) by {
                if i < p.len() {
                    assert(insts[i] == p[i]);
                }
            }
        }
        if let Some(k) = first_match(p, loc) {
            assert(insts[k] == p[k]);
        }
    }
}

proof fn lemma_starts_with_more(vars: Seq<usize>, more: Seq<usize>, v: Seq<usize>)
    requires
        starts_with(v, vars + more),
    ensures
        starts_with(v, vars),
{
    assert(v.take(vars.len() as int) =~= (vars + more).take(vars.len() as int));
    assert((vars + more).take(vars.len() as int) =~= vars);
}

proof fn lemma_block_search(b: Block, loc: SourceElement, vars: Seq<usize>)
    ensures
        block_search(b, loc, vars) is None <==> !block_has(b, loc),
        block_search(b, loc, vars) matches Some((inst, v)) ==> loc_matches(inst.loc, loc) && starts_with(
            v,
            vars,
        ) && found_in(b, loc, inst, v, vars),
    decreases b, 1int,
{
    assert(decreases_to!(b => b.scopes));
    assert(decreases_to!(b.scopes => b.scopes@));
    lemma_first_match(b.instructions@, loc);
    let more = vars + declared_ids(b.instructions@);
    lemma_scopes_search(b.scopes@, loc, more);
    assert(vars.take(vars.len() as int) =~= vars);
    let none: Seq<int> = seq![];
    assert(block_at(b, none) == Some(b));
    assert(decls_along(b, none) == Seq::<usize>::empty());
    assert(vars + Seq::<usize>::empty() =~= vars);
    if let Some(k) = first_match(b.instructions@, loc) {
        let v = vars + declared_ids(b.instructions@.take(k + 1));
        assert(v.take(vars.len() as int) =~= vars);
        assert(block_has(b, loc));
        assert(v == vars + decls_along(b, none) + declared_ids(b.instructions@.take(k + 1)));
    }
    if let Some((inst, v)) = scopes_search(b.scopes@, loc, more) {
        lemma_starts_with_more(vars, declared_ids(b.instructions@), v);
        if !(b.condition is Some && loc_matches(b.condition->0.loc, loc)) && first_match(b.instructions@, loc)
            is None {
            let i = choose|i: int|
                0 <= i < b.scopes@.len() && block_search(#[trigger] b.scopes@[i], loc, more) == Some((inst, v));
            assert(decreases_to!(b => b.scopes@[i]));
            lemma_block_search(b.scopes@[i], loc, more);
            let c = b.scopes@[i];
            let p = choose|path: Seq<int>|
                #![trigger block_at(c, path)]
                block_at(c, path) matches Some(t) && {
                    ||| t.condition == Some(inst) && v == more + decls_along(c, path)
                    ||| exists|j: int|
                        0 <= j < t.instructions@.len() && t.instructions@[j] == inst && v == more + decls_along(c, path)
                            + declared_ids(#[trigger] t.instructions@.take(j + 1))
                };
            let q = seq![i] + p;
            assert(q.drop_first() =~= p);
            assert(q[0] == i);
            assert(block_at(b, q) == block_at(c, p));
            assert(decls_along(b, q) == declared_ids(b.instructions@) + decls_along(c, p));
            assert(more + decls_along(c, p) =~= vars + decls_along(b, q));
            let t = block_at(c, p)->0;
            if !(t.condition == Some(inst) && v == more + decls_along(c, p)) {
                let j = choose|j: int|
                    0 <= j < t.instructions@.len() && t.instructions@[j] == inst && v == more + decls_along(c, p)
                        + declared_ids(#[trigger] t.instructions@.take(j + 1));
                assert(more + decls_along(c, p) + declared_ids(t.instructions@.take(j + 1)) =~= vars + decls_along(
                    b,
                    q,
                ) + declared_ids(t.instructions@.take(j + 1)));
            }
        }
    }
}

proof fn lemma_scopes_search(bs: Seq<Block>, loc: SourceElement, vars: Seq<usize>)
    ensures
        scopes_search(bs, loc, vars) is None <==> !blocks_have(bs, loc),
        scopes_search(bs, loc, vars) matches Some((inst, v)) ==> loc_matches(inst.loc, loc) && starts_with(
            v,
            vars,
        ) && exists|i: int| 0 <= i < bs.len() && block_search(#[trigger] bs[i], loc, vars) == Some((inst, v)),
    decreases bs, 0int,
{
    if bs.len() > 0 {
        lemma_scopes_search(bs.drop_last(), loc, vars);
        lemma_block_search(bs.last(), loc, vars);
        if let Some((inst, v)) = scopes_search(bs.drop_last(), loc, vars) {
            let i = choose|i: int|
                0 <= i < bs.drop_last().len() && block_search(#[trigger] bs.drop_last()[i], loc, vars) == Some((inst, v));
            assert(bs[i] == bs.drop_last()[i]);
        }
        if scopes_search(bs.drop_last(), loc, vars) is None {
            assert(bs[bs.len() - 1] == bs.last());
        }
    }
}

/// No function among the first `i` of `fs` has, itself or in one of its
/// blocks, the range that `loc` covers.
pub open spec fn none_before(fs: Seq<Function>, i: int, loc: SourceElement) -> bool {
    forall|k: int| 0 <= k < i ==> !loc_matches((#[trigger] fs[k]).loc, loc) && !block_has(fs[k].root_block, loc)
}

/// What `match_location` finds in a unit (by `unit_search`, which its
/// `ensures` follows): nothing only where no function, condition or statement
/// of any block of any function has the range that `loc` covers; otherwise it
/// looks in the first function that has it. Where that function's own range is
/// the one, the function is matched with the state variables then its
/// parameters in scope. Else a condition or statement of one of its blocks is
/// matched, with the state variables, the parameters, the variables declared
/// by each block on the way to that block, and (for a statement) those its own
/// block declares up to and including it.
pub proof fn law_match_location_finds_what_covers_loc(fs: Seq<Function>, state: Seq<usize>, loc: SourceElement)
    requires
        fs.len() <= usize::MAX,
    ensures
        unit_search(fs, state, loc) is None <==> forall|i: int|
            0 <= i < fs.len() ==> !loc_matches((#[trigger] fs[i]).loc, loc) && !block_has(fs[i].root_block, loc),
        unit_search(fs, state, loc) matches Some((Matched::Function(i), v)) ==> i < fs.len() && none_before(
            fs,
            i as int,
            loc,
        ) && loc_matches(fs[i as int].loc, loc) && v == function_vars(state, fs[i as int]),
        unit_search(fs, state, loc) matches Some((Matched::Instruction(inst), v)) ==> exists|i: int|
            0 <= i < fs.len() && none_before(fs, i, loc) && !loc_matches((#[trigger] fs[i]).loc, loc) && found_in(
                fs[i].root_block,
                loc,
                inst,
                v,
                function_vars(state, fs[i]),
            ),
    decreases fs.len(),
{
    if fs.len() > 0 {
        let p = fs.drop_last();
        law_match_location_finds_what_covers_loc(p, state, loc);
        let f = fs.last();
        let vars = function_vars(state, f);
        lemma_block_search(f.root_block, loc, vars);
        assert forall|i: int| 0 <= i < p.len() implies fs[i] == p[i] by {}
        if let Some((Matched::Function(i), v)) = unit_search(p, state, loc) {
            assert(fs[i as int] == p[i as int]);
        }
        if let Some((Matched::Instruction(inst), v)) = unit_search(p, state, loc) {
            let i = choose|i: int|
                0 <= i < p.len() && none_before(p, i, loc) && !loc_matches((#[trigger] p[i]).loc, loc) && found_in(
                    p[i].root_block,
                    loc,
                    inst,
                    v,
                    function_vars(state, p[i]),
                );
            assert(fs[i] == p[i]);
        }
        if unit_search(p, state, loc) is None {
            assert(none_before(fs, fs.len() - 1, loc));
            assert(fs[fs.len() - 1] == f);
        }
    }
}

} // verus!
