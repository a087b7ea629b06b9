//! What the syntax trees of a build tell of types: the contracts, structs,
//! enums and value types by id, the state variables by id, and the state
//! variables of each contract.
use std::collections::HashMap;
use vstd::prelude::*;
use vstd::std_specs::iter::IteratorSpec;

use crate::debugger::ast::{clone_node, same_node, AstNode, NodeType};
use crate::debugger::tracer::{Variable, VariableLocation};
use crate::debugger::visitor::{build_debug_variable_checked, var_is, variable_spec, Built, VarSpec};

verus! {

broadcast use vstd::std_specs::hash::group_hash_axioms;

/// The keys of `m`, each once.
fn keys_of<V>(m: &HashMap<usize, V>) -> (r: Vec<usize>)
    ensures
        r@.to_set() == m@.dom(),
        r@.no_duplicates(),
{
    let ghost s: Seq<&usize> = vstd::std_specs::hash::spec_keys_iter(m).remaining();
    let mut r: Vec<usize> = Vec::new();
    for k in it: m.keys()
        invariant
            r@ == it.seq().unref().take(it.index() as int),
            it.seq() == s,
    {
        r.push(*k);
        assert(it.seq().unref().take(it.index() + 1) =~= it.seq().unref().take(it.index() as int).push(*k));
    }
    assert(r@ =~= s.unref());
    assert(r@.no_duplicates()) by {
        assert forall|i: int, j: int| 0 <= i < r@.len() && 0 <= j < r@.len() && i != j implies r@[i] != r@[j] by {
            assert(s[i] != s[j]);
        }
    }
    r
}

/// Moves every entry of `from` into `to`, in place of an entry of the same key.
fn move_entries<V>(to: &mut HashMap<usize, V>, from: HashMap<usize, V>)
    ensures
        final(to)@ == old(to)@.union_prefer_right(from@),
{
    let keys = keys_of(&from);
    let ghost all = from@;
    let ghost start = to@;
    let mut from = from;
    let n = keys.len();
    let mut i: usize = 0;
    while i < n
        invariant
            n == keys@.len(),
            i <= n,
            keys@.no_duplicates(),
            keys@.to_set() == all.dom(),
            from@ == all.remove_keys(keys@.take(i as int).to_set()),
            to@ == start.union_prefer_right(all.restrict(keys@.take(i as int).to_set())),
        decreases n - i,
    {
        let k = keys[i];
        assert(keys@.to_set().contains(k));
        assert(!keys@.take(i as int).to_set().contains(k)) by {
            if keys@.take(i as int).to_set().contains(k) {
                let j = choose|j: int| 0 <= j < i && keys@.take(i as int)[j] == k;
                assert(keys@[j] == keys@[i as int]);
            }
        }
        match from.remove(&k) {
            Some(v) => {
                to.insert(k, v);
            },
            None => {
                assert(false);
            },
        }
        assert(keys@.take(i + 1).to_set() =~= keys@.take(i as int).to_set().insert(k)) by {
            assert(keys@.take(i + 1) =~= keys@.take(i as int).push(k));
            keys@.take(i as int).lemma_push_to_set_commute(k);
        }
        assert(from@ =~= all.remove_keys(keys@.take(i + 1).to_set()));
        assert(to@ =~= start.union_prefer_right(all.restrict(keys@.take(i + 1).to_set())));
        i = i + 1;
    }
    assert(keys@.take(n as int) =~= keys@);
    assert(all.restrict(keys@.to_set()) =~= all);
}

/// What the syntax trees of a build tell of types.
pub struct TraceContext {
    /// the ids of the state variables of each contract, by the contract's id
    pub contract_state_variables: HashMap<usize, Vec<usize>>,
    /// contracts, structs, enums and user defined value types by id
    pub structs: HashMap<usize, AstNode>,
    /// state variables by id
    pub state_variables: HashMap<usize, Variable>,
}

impl TraceContext {
    /// A context that knows nothing.
    pub fn new() -> (r: Self)
        ensures
            r.contract_state_variables@ == Map::<usize, Vec<usize>>::empty(),
            r.structs@ == Map::<usize, AstNode>::empty(),
            r.state_variables@ == Map::<usize, Variable>::empty(),
    {
        TraceContext {
            contract_state_variables: HashMap::new(),
            structs: HashMap::new(),
            state_variables: HashMap::new(),
        }
    }

    /// Adds what `other` knows; where both know an id, `other` wins.
    pub fn merge(&mut self, other: TraceContext)
        ensures
            final(self).contract_state_variables@ == old(self).contract_state_variables@.union_prefer_right(
                other.contract_state_variables@,
            ),
            final(self).structs@ == old(self).structs@.union_prefer_right(other.structs@),
            final(self).state_variables@ == old(self).state_variables@.union_prefer_right(
                other.state_variables@,
            ),
    {
        let TraceContext { contract_state_variables, structs, state_variables } = other;
        move_entries(&mut self.structs, structs);
        move_entries(&mut self.state_variables, state_variables);
        move_entries(&mut self.contract_state_variables, contract_state_variables);
    }
}


/// What a context knows, as plain values.
pub struct ContextSpec {
    pub contract_state_variables: Map<usize, Seq<usize>>,
    pub structs: Map<usize, AstNode>,
    pub state_variables: Map<usize, VarSpec>,
}

pub open spec fn context_is(c: TraceContext, s: ContextSpec) -> bool {
    &&& c.contract_state_variables@.dom() == s.contract_state_variables.dom()
    &&& forall|k: usize| #[trigger]
        c.contract_state_variables@.contains_key(k) ==> c.contract_state_variables@[k]@
            == s.contract_state_variables[k]
    &&& c.structs@.dom() == s.structs.dom()
    &&& forall|k: usize| #[trigger] c.structs@.contains_key(k) ==> same_node(c.structs@[k], s.structs[k])
    &&& c.state_variables@.dom() == s.state_variables.dom()
    &&& forall|k: usize| #[trigger]
        c.state_variables@.contains_key(k) ==> var_is(c.state_variables@[k], s.state_variables[k])
}

/// A declaration of a type that variables can have: a struct, an enum or a
/// user defined value type.
pub open spec fn declares_type(t: NodeType) -> bool {
    t is StructDefinition || t is UserDefinedValueTypeDefinition || t is EnumDefinition
}

/// What the member `c` of a contract adds to the types, the state variables
/// and the list of the contract's state variables; `None` where it has no id,
/// or is a state variable that cannot be read.
pub open spec fn member_step(
    st: (Map<usize, AstNode>, Map<usize, VarSpec>, Seq<usize>),
    c: AstNode,
) -> Option<(Map<usize, AstNode>, Map<usize, VarSpec>, Seq<usize>)> {
    match c.id {
        None => None,
        Some(id) => if declares_type(c.node_type) {
            Some((st.0.insert(id, c), st.1, st.2))
        } else if c.node_type is VariableDeclaration {
            match variable_spec(c, VariableLocation::Storage) {
                Built::Read(Some(v)) => Some((st.0, st.1.insert(id, v), st.2.push(id))),
                _ => None,
            }
        } else {
            Some(st)
        },
    }
}

pub open spec fn members_fold(
    init: (Map<usize, AstNode>, Map<usize, VarSpec>, Seq<usize>),
    cs: Seq<AstNode>,
) -> Option<(Map<usize, AstNode>, Map<usize, VarSpec>, Seq<usize>)>
    decreases cs.len(),
{
    if cs.len() == 0 {
        Some(init)
    } else {
        match members_fold(init, cs.drop_last()) {
            Some(st) => member_step(st, cs.last()),
            None => None,
        }
    }
}

/// What the top-level node `n` of a syntax tree adds: a contract is known by
/// its id, with its types and state variables; so is a type declared outside
/// contracts.
pub open spec fn top_step(ctx: ContextSpec, n: AstNode) -> Option<ContextSpec> {
    if n.node_type is ContractDefinition {
        match n.id {
            None => None,
            Some(id) => match members_fold((ctx.structs.insert(id, n), ctx.state_variables, seq![]), n.nodes@) {
                None => None,
                Some((structs, state_variables, list)) => Some(
                    ContextSpec {
                        contract_state_variables: ctx.contract_state_variables.insert(id, list),
                        structs,
                        state_variables,
                    },
                ),
            },
        }
    } else if declares_type(n.node_type) {
        match n.id {
            None => None,
            Some(id) => Some(ContextSpec { structs: ctx.structs.insert(id, n), ..ctx }),
        }
    } else {
        Some(ctx)
    }
}

pub open spec fn empty_context() -> ContextSpec {
    ContextSpec {
        contract_state_variables: Map::empty(),
        structs: Map::empty(),
        state_variables: Map::empty(),
    }
}

/// What the top-level nodes `ns` of a syntax tree tell of types, read in order.
pub open spec fn types_fold(ns: Seq<AstNode>) -> Option<ContextSpec>
    decreases ns.len(),
{
    if ns.len() == 0 {
        Some(empty_context())
    } else {
        match types_fold(ns.drop_last()) {
            Some(ctx) => top_step(ctx, ns.last()),
            None => None,
        }
    }
}

proof fn lemma_members_stuck(
    init: (Map<usize, AstNode>, Map<usize, VarSpec>, Seq<usize>),
    cs: Seq<AstNode>,
    k: int,
)
    requires
        0 <= k <= cs.len(),
        members_fold(init, cs.take(k)) is None,
    ensures
        members_fold(init, cs) is None,
    decreases cs.len() - k,
{
    if k < cs.len() {
        assert(cs.take(k + 1).drop_last() =~= cs.take(k));
        lemma_members_stuck(init, cs, k + 1);
    } else {
        assert(cs.take(k) =~= cs);
    }
}

proof fn lemma_types_stuck(ns: Seq<AstNode>, k: int)
    requires
        0 <= k <= ns.len(),
        types_fold(ns.take(k)) is None,
    ensures
        types_fold(ns) is None,
    decreases ns.len() - k,
{
    if k < ns.len() {
        assert(ns.take(k + 1).drop_last() =~= ns.take(k));
        lemma_types_stuck(ns, k + 1);
    } else {
        assert(ns.take(k) =~= ns);
    }
}

fn declares_type_exec(t: &NodeType) -> (r: bool)
    ensures
        r == declares_type(*t),
{
    matches!(t, NodeType::StructDefinition | NodeType::UserDefinedValueTypeDefinition | NodeType::EnumDefinition)
}

/// Reads the members of the contract `n` into `ctx`, and the ids of its state
/// variables into a list, which is returned; `None` where a member has no id
/// or is a state variable that cannot be read.
fn read_members(ctx: &mut TraceContext, n: &AstNode, Ghost(s): Ghost<ContextSpec>) -> (r: Option<Vec<usize>>)
    requires
        context_is(*old(ctx), s),
    ensures
        match members_fold((s.structs, s.state_variables, seq![]), n.nodes@) {
            Some((structs, state_variables, list)) => r matches Some(l) && l@ == list && context_is(
                *final(ctx),
                ContextSpec { structs, state_variables, ..s },
            ),
            None => r is None,
        },
{
    let ghost init = (s.structs, s.state_variables, Seq::<usize>::empty());
    let mut list: Vec<usize> = Vec::new();
    let m = n.nodes.len();
    let mut j: usize = 0;
    assert(n.nodes@.take(0) =~= Seq::<AstNode>::empty());
    while j < m
        invariant
            m == n.nodes@.len(),
            j <= m,
            init == (s.structs, s.state_variables, Seq::<usize>::empty()),
            members_fold(init, n.nodes@.take(j as int)) matches Some((structs, state_variables, l)) && l
                == list@ && context_is(*ctx, ContextSpec { structs, state_variables, ..s }),
        decreases m - j,
    {
        assert(n.nodes@.take(j + 1).drop_last() =~= n.nodes@.take(j as int));
        assert(n.nodes@.take(j + 1).last() == n.nodes@[j as int]);
        let c = &n.nodes[j];
        let cid = match c.id {
            Some(id) => id,
            None => {
                proof {
                    assert(members_fold(init, n.nodes@.take(j + 1)) is None);
                    lemma_members_stuck(init, n.nodes@, j + 1);
                }
                return None;
            },
        };
        if declares_type_exec(&c.node_type) {
            ctx.structs.insert(cid, clone_node(c));
        } else if matches!(c.node_type, NodeType::VariableDeclaration) {
            match build_debug_variable_checked(c, VariableLocation::Storage) {
                Some(Ok(Some(v))) => {
                    ctx.state_variables.insert(cid, v);
                    list.push(cid);
                },
                _ => {
                    proof {
                        assert(members_fold(init, n.nodes@.take(j + 1)) is None);
                        lemma_members_stuck(init, n.nodes@, j + 1);
                    }
                    return None;
                },
            }
        }
        let ghost after = members_fold(init, n.nodes@.take(j + 1))->0;
        assert(context_is(*ctx, ContextSpec { structs: after.0, state_variables: after.1, ..s }));
        j = j + 1;
    }
    assert(n.nodes@.take(m as int) =~= n.nodes@);
    Some(list)
}

/// What the top-level nodes `nodes` of a syntax tree tell of types, as
/// `retrieve_types` reads them; `None` where a contract or type has no id, or a
/// state variable cannot be read.
pub fn try_retrieve_types(nodes: &Vec<AstNode>) -> (r: Option<TraceContext>)
    ensures
        match types_fold(nodes@) {
            Some(s) => r matches Some(c) && context_is(c, s),
            None => r is None,
        },
{
    let mut ctx = TraceContext::new();
    let n = nodes.len();
    let mut i: usize = 0;
    assert(nodes@.take(0) =~= Seq::<AstNode>::empty());
    while i < n
        invariant
            n == nodes@.len(),
            i <= n,
            types_fold(nodes@.take(i as int)) matches Some(s) && context_is(ctx, s),
        decreases n - i,
    {
        assert(nodes@.take(i + 1).drop_last() =~= nodes@.take(i as int));
        assert(nodes@.take(i + 1).last() == nodes@[i as int]);
        let ghost s = types_fold(nodes@.take(i as int))->0;
        let node = &nodes[i];
        if matches!(node.node_type, NodeType::ContractDefinition) || declares_type_exec(&node.node_type) {
            let id = match node.id {
                Some(id) => id,
                None => {
                    proof {
                        lemma_types_stuck(nodes@, i + 1);
                    }
                    return None;
                },
            };
            ctx.structs.insert(id, clone_node(node));
            if matches!(node.node_type, NodeType::ContractDefinition) {
                let ghost s1 = ContextSpec { structs: s.structs.insert(id, *node), ..s };
                assert(context_is(ctx, s1));
                match read_members(&mut ctx, node, Ghost(s1)) {
                    Some(list) => {
                        ctx.contract_state_variables.insert(id, list);
                    },
                    None => {
                        proof {
                            lemma_types_stuck(nodes@, i + 1);
                        }
                        return None;
                    },
                }
            }
        }
        assert(context_is(ctx, types_fold(nodes@.take(i + 1))->0));
        i = i + 1;
    }
    assert(nodes@.take(n as int) =~= nodes@);
    Some(ctx)
}

/// What the top-level nodes `nodes` of a syntax tree tell of types: each
/// contract with its types and state variables, and the types declared
/// outside contracts.
pub fn retrieve_types(nodes: &Vec<AstNode>) -> (r: TraceContext)
    requires
        types_fold(nodes@) is Some,
    ensures
        context_is(r, types_fold(nodes@)->0),
{
    match try_retrieve_types(nodes) {
        Some(c) => c,
        None => TraceContext::new(),
    }
}

/// What the contexts `cs` know together, later ones winning where two know an
/// id.
pub open spec fn merged(cs: Seq<TraceContext>) -> (Map<usize, Vec<usize>>, Map<usize, AstNode>, Map<usize, Variable>)
    decreases cs.len(),
{
    if cs.len() == 0 {
        (Map::empty(), Map::empty(), Map::empty())
    } else {
        let (a, b, c) = merged(cs.drop_last());
        let l = cs.last();
        (
            a.union_prefer_right(l.contract_state_variables@),
            b.union_prefer_right(l.structs@),
            c.union_prefer_right(l.state_variables@),
        )
    }
}

impl TraceContext {
    /// A context that knows what all of `contexts` know, merged in order.
    pub fn merge_all(contexts: Vec<TraceContext>) -> (r: Self)
        ensures
            (r.contract_state_variables@, r.structs@, r.state_variables@) == merged(contexts@),
    {
        let ghost all = contexts@;
        let mut contexts = contexts;
        let mut r = TraceContext::new();
        let ghost mut done: Seq<TraceContext> = Seq::empty();
        assert(all =~= done + contexts@);
        while contexts.len() > 0
            invariant
                all == done + contexts@,
                merged(done) == (r.contract_state_variables@, r.structs@, r.state_variables@),
            decreases contexts.len(),
        {
            let ghost before = contexts@;
            let c = contexts.remove(0);
            proof {
                assert(done + before =~= done.push(c) + contexts@);
                assert(done.push(c).drop_last() =~= done);
                done = done.push(c);
            }
            r.merge(c);
        }
        assert(done + contexts@ =~= done);
        r
    }
}

} // verus!
