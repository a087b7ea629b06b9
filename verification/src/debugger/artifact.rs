//! The debug units of a compiled artifact: for each contract of its syntax
//! tree that the artifact was compiled for, what its functions hold, where it
//! stands in the source, and the state variables it inherits.
use vstd::prelude::*;
use vstd::utf8::encode_utf8;

use crate::debugger::ast::{attr_str, attr_usizes, str_attribute, usizes_attribute, AstNode, NodeType};
use crate::debugger::context::TraceContext;
use crate::debugger::units::{BytecodeMap, DebugUnit};
use crate::debugger::visitor::{
    appended, contract_spec, functions_match, location_for, location_ok, location_ok_exec, source_location_for,
    Built, StatementVisitor,
};
use crate::text::{push_char, str_eq};

verus! {

broadcast use vstd::std_specs::hash::group_hash_axioms;

/// The ids of the state variables of the contracts `bases`, in order.
pub open spec fn state_variables_of(bases: Seq<usize>, known: Map<usize, Vec<usize>>) -> Seq<usize>
    decreases bases.len(),
{
    if bases.len() == 0 {
        seq![]
    } else {
        state_variables_of(bases.drop_last(), known) + known[bases.last()]@
    }
}

/// The contracts among `ns` named `target`.
pub open spec fn contracts_named(ns: Seq<AstNode>, target: Seq<char>) -> Seq<AstNode>
    decreases ns.len(),
{
    if ns.len() == 0 {
        seq![]
    } else {
        let c = ns.last();
        contracts_named(ns.drop_last(), target) + if c.node_type is ContractDefinition && attr_str(
            c,
            "name"@,
        ) == Some(target) {
            seq![c]
        } else {
            seq![]
        }
    }
}

/// The debug unit of the contract `c` can be read: its base contracts are
/// listed and their state variables known, its range can be cut out of the
/// source, and reading it gives no error.
pub open spec fn unit_readable(c: AstNode, src: Seq<u8>, known: Map<usize, Vec<usize>>) -> bool {
    &&& attr_usizes(c, "linearizedBaseContracts"@) matches Some(bases) && forall|i: int|
        0 <= i < bases.len() ==> known.contains_key(#[trigger] bases[i])
    &&& location_ok(src, c.src)
    &&& contract_spec(src, seq![], false, c) is Read
}

/// Every contract among `ns` has a name, and each one named `target` can be read.
pub open spec fn units_readable(ns: Seq<AstNode>, target: Seq<char>, src: Seq<u8>, known: Map<usize, Vec<usize>>) -> bool {
    forall|i: int|
        0 <= i < ns.len() && (#[trigger] ns[i]).node_type is ContractDefinition ==> (attr_str(ns[i], "name"@)
            is Some && (attr_str(ns[i], "name"@) == Some(target) ==> unit_readable(ns[i], src, known)))
}

/// The unit `u` is what reading the contract `c` gives.
pub open spec fn unit_read_from(
    u: DebugUnit,
    c: AstNode,
    target: Seq<char>,
    source_id: u32,
    deployed_bytecode: BytecodeMap,
    bytecode: BytecodeMap,
    path: Seq<char>,
    source: Seq<char>,
    known: Map<usize, Vec<usize>>,
) -> bool {
    let src = encode_utf8(source);
    &&& u.contract_name@ == target
    &&& u.path@ == path
    &&& u.source_id == source_id
    &&& u.location == location_for(src, c.src)
    &&& u.linearized_base_contracts@ == attr_usizes(c, "linearizedBaseContracts"@)->0.reverse()
    &&& u.state_variables@ == state_variables_of(u.linearized_base_contracts@, known)
    &&& contract_spec(src, seq![], false, c) matches Built::Read(st) && functions_match(
        u.functions@,
        seq![],
        st.entries,
    ) && appended(seq![], u.variables@, st.variables)
    &&& same_maps(u.bytecode, bytecode)
    &&& same_maps(u.deployed_bytecode, deployed_bytecode)
}

/// The units `us` are, in order, what reading each contract among `ns` named
/// `target` gives.
pub open spec fn units_read_from(
    us: Seq<DebugUnit>,
    ns: Seq<AstNode>,
    target: Seq<char>,
    source_id: u32,
    deployed_bytecode: BytecodeMap,
    bytecode: BytecodeMap,
    path: Seq<char>,
    source: Seq<char>,
    known: Map<usize, Vec<usize>>,
) -> bool {
    &&& us.len() == contracts_named(ns, target).len()
    &&& forall|k: int|
        0 <= k < us.len() ==> unit_read_from(
            #[trigger] us[k],
            contracts_named(ns, target)[k],
            target,
            source_id,
            deployed_bytecode,
            bytecode,
            path,
            source,
            known,
        )
}

/// Where the node at `i` keeps `ns.take(i + 1)` from being readable, `ns` is not.
proof fn lemma_unreadable_at(ns: Seq<AstNode>, target: Seq<char>, src: Seq<u8>, known: Map<usize, Vec<usize>>, i: int)
    requires
        0 <= i < ns.len(),
        !units_readable(ns.take(i + 1), target, src, known),
        units_readable(ns.take(i), target, src, known),
    ensures
        !units_readable(ns, target, src, known),
{
    let j = choose|j: int|
        0 <= j < ns.take(i + 1).len() && (#[trigger] ns.take(i + 1)[j]).node_type is ContractDefinition && !(attr_str(
            ns.take(i + 1)[j],
            "name"@,
        ) is Some && (attr_str(ns.take(i + 1)[j], "name"@) == Some(target) ==> unit_readable(
            ns.take(i + 1)[j],
            src,
            known,
        )));
    assert(ns[j] == ns.take(i + 1)[j]);
}

/// Two bytecode maps hold the same source map and the same instruction maps.
pub open spec fn same_maps(a: BytecodeMap, b: BytecodeMap) -> bool {
    &&& a.source_map@ == b.source_map@
    &&& a._pc_ic_map.inner@ == b._pc_ic_map.inner@
    &&& a.ic_pc_map.inner@ == b.ic_pc_map.inner@
}

fn reversed(v: &Vec<usize>) -> (r: Vec<usize>)
    ensures
        r@ == v@.reverse(),
{
    let mut r: Vec<usize> = Vec::new();
    let mut i: usize = v.len();
    while i > 0
        invariant
            i <= v@.len(),
            r@ == v@.skip(i as int).reverse(),
        decreases i,
    {
        i = i - 1;
        r.push(v[i]);
        assert(r@ =~= v@.skip(i as int).reverse());
    }
    assert(v@.skip(0) =~= v@);
    r
}

/// The ids of the state variables of the contracts `bases`, in order.
fn collect_state_variables(bases: &Vec<usize>, context: &TraceContext) -> (r: Vec<usize>)
    requires
        forall|i: int| 0 <= i < bases@.len() ==> context.contract_state_variables@.contains_key(#[trigger] bases@[i]),
    ensures
        r@ == state_variables_of(bases@, context.contract_state_variables@),
{
    let mut r: Vec<usize> = Vec::new();
    let mut i: usize = 0;
    while i < bases.len()
        invariant
            i <= bases@.len(),
            forall|j: int| 0 <= j < bases@.len() ==> context.contract_state_variables@.contains_key(#[trigger] bases@[j]),
            r@ == state_variables_of(bases@.take(i as int), context.contract_state_variables@),
        decreases bases@.len() - i,
    {
        let b = bases[i];
        assert(bases@.take(i + 1).drop_last() =~= bases@.take(i as int));
        match context.contract_state_variables.get(&b) {
            Some(ids) => {
                let ghost before = r@;
                let mut j: usize = 0;
                while j < ids.len()
                    invariant
                        j <= ids@.len(),
                        r@ == before + ids@.take(j as int),
                    decreases ids@.len() - j,
                {
                    r.push(ids[j]);
                    j = j + 1;
                    assert(r@ =~= before + ids@.take(j as int));
                }
                assert(ids@.take(ids@.len() as int) =~= ids@);
            },
            None => {
                assert(bases@.take(i + 1).last() == bases@[i as int]);
                assert(false);
            },
        }
        i = i + 1;
    }
    assert(bases@.take(bases@.len() as int) =~= bases@);
    r
}

/// Whether `context` knows the state variables of each of the contracts `bases`.
fn all_known(bases: &Vec<usize>, context: &TraceContext) -> (r: bool)
    ensures
        r == forall|i: int| 0 <= i < bases@.len() ==> context.contract_state_variables@.contains_key(#[trigger] bases@[i]),
{
    let mut i: usize = 0;
    while i < bases.len()
        invariant
            i <= bases@.len(),
            forall|j: int| 0 <= j < i ==> context.contract_state_variables@.contains_key(#[trigger] bases@[j]),
        decreases bases@.len() - i,
    {
        if context.contract_state_variables.get(&bases[i]).is_none() {
            return false;
        }
        i = i + 1;
    }
    true
}

/// The debug unit of the contract `c`, named `name`; `None` where it cannot be
/// read (see `unit_readable`).
fn try_build_unit(
    c: &AstNode,
    name: &String,
    source_id: u32,
    deployed_bytecode: &BytecodeMap,
    bytecode: &BytecodeMap,
    path: &str,
    source: &str,
    context: &TraceContext,
) -> (r: Option<DebugUnit>)
    ensures
        r is Some <==> unit_readable(*c, encode_utf8(source@), context.contract_state_variables@),
        r matches Some(u) ==> unit_read_from(
            u,
            *c,
            name@,
            source_id,
            *deployed_bytecode,
            *bytecode,
            path@,
            source@,
            context.contract_state_variables@,
        ),
{
    let bases = match usizes_attribute(c, "linearizedBaseContracts") {
        Some(b) => b,
        None => {
            return None;
        },
    };
    if !all_known(&bases, context) {
        return None;
    }
    if !location_ok_exec(source, &c.src) {
        return None;
    }
    let linearized = reversed(&bases);
    let mut visitor = StatementVisitor::new(
        name.clone(),
        deployed_bytecode.copy(),
        bytecode.copy(),
        path.to_owned(),
        source.to_owned(),
    );
    assert(visitor.debug_unit.functions@ =~= Seq::<crate::debugger::units::Function>::empty());
    assert(visitor.debug_unit.variables@ =~= Seq::<crate::debugger::tracer::Variable>::empty());
    let contract_loc = source_location_for(source, &c.src);
    match visitor.visit_contract(c) {
        Ok(()) => {},
        Err(_) => {
            return None;
        },
    }
    let mut unit = visitor.debug_unit;
    unit.source_id = source_id;
    assert forall|i: int| 0 <= i < linearized@.len() implies context.contract_state_variables@.contains_key(
        #[trigger] linearized@[i],
    ) by {
        assert(linearized@[i] == bases@[bases@.len() - 1 - i]);
    }
    unit.state_variables = collect_state_variables(&linearized, context);
    unit.linearized_base_contracts = linearized;
    unit.location = contract_loc;
    Some(unit)
}

/// The debug units of the contracts among the top-level nodes `nodes` that are
/// named `target`, as `contract_units` reads them; `None` where a contract has
/// no name or one named `target` cannot be read (see `units_readable`).
pub fn try_contract_units(
    nodes: &Vec<AstNode>,
    target: &str,
    source_id: u32,
    deployed_bytecode: &BytecodeMap,
    bytecode: &BytecodeMap,
    path: &str,
    source: &str,
    context: &TraceContext,
) -> (r: Option<Vec<DebugUnit>>)
    ensures
        r is Some <==> units_readable(nodes@, target@, encode_utf8(source@), context.contract_state_variables@),
        r matches Some(v) ==> units_read_from(
            v@,
            nodes@,
            target@,
            source_id,
            *deployed_bytecode,
            *bytecode,
            path@,
            source@,
            context.contract_state_variables@,
        ),
{
    let ghost src = encode_utf8(source@);
    let ghost known = context.contract_state_variables@;
    let mut units: Vec<DebugUnit> = Vec::new();
    let n = nodes.len();
    let mut i: usize = 0;
    assert(nodes@.take(0) =~= Seq::<AstNode>::empty());
    while i < n
        invariant
            n == nodes@.len(),
            i <= n,
            src == encode_utf8(source@),
            known == context.contract_state_variables@,
            units_readable(nodes@.take(i as int), target@, src, known),
            units_read_from(
                units@,
                nodes@.take(i as int),
                target@,
                source_id,
                *deployed_bytecode,
                *bytecode,
                path@,
                source@,
                known,
            ),
        decreases n - i,
    {
        assert(nodes@.take(i + 1).drop_last() =~= nodes@.take(i as int));
        assert(nodes@.take(i + 1).last() == nodes@[i as int]);
        let ghost prefix = contracts_named(nodes@.take(i as int), target@);
        let node = &nodes[i];
        if matches!(node.node_type, NodeType::ContractDefinition) {
            let name = match str_attribute(node, "name") {
                Some(nm) => nm,
                None => {
                    proof {
                        lemma_unreadable_at(nodes@, target@, src, known, i as int);
                    }
                    return None;
                },
            };
            if str_eq(name.as_str(), target) {
                match try_build_unit(node, name, source_id, deployed_bytecode, bytecode, path, source, context) {
                    Some(unit) => {
                        units.push(unit);
                    },
                    None => {
                        proof {
                            lemma_unreadable_at(nodes@, target@, src, known, i as int);
                        }
                        return None;
                    },
                }
                assert(contracts_named(nodes@.take(i + 1), target@) =~= prefix + seq![*node]);
            } else {
                assert(contracts_named(nodes@.take(i + 1), target@) =~= prefix);
            }
        } else {
            assert(contracts_named(nodes@.take(i + 1), target@) =~= prefix);
        }
        i = i + 1;
    }
    assert(nodes@.take(n as int) =~= nodes@);
    Some(units)
}

/// The debug units of the contracts among the top-level nodes `nodes` of an
/// artifact's syntax tree that are named `target` (the contract the artifact
/// was compiled for), in order: each read from the source `source` of the
/// file at `path`, with the artifact's source id and the maps of its code, and
/// the state variables of its base contracts from `context`.
pub fn contract_units(
    nodes: &Vec<AstNode>,
    target: &str,
    source_id: u32,
    deployed_bytecode: &BytecodeMap,
    bytecode: &BytecodeMap,
    path: &str,
    source: &str,
    context: &TraceContext,
) -> (r: Vec<DebugUnit>)
    requires
        units_readable(nodes@, target@, encode_utf8(source@), context.contract_state_variables@),
    ensures
        units_read_from(
            r@,
            nodes@,
            target@,
            source_id,
            *deployed_bytecode,
            *bytecode,
            path@,
            source@,
            context.contract_state_variables@,
        ),
{
    match try_contract_units(nodes, target, source_id, deployed_bytecode, bytecode, path, source, context) {
        Some(units) => units,
        None => {
            assert(false);
            Vec::new()
        },
    }
}


/// The part of `s` after its last `/` (all of it where it has none).
pub open spec fn last_segment(s: Seq<char>) -> Seq<char>
    decreases s.len(),
{
    if s.len() == 0 {
        seq![]
    } else if s.last() == '/' {
        seq![]
    } else {
        last_segment(s.drop_last()).push(s.last())
    }
}

/// The contract that an artifact file is named after: the last part of its
/// name without the `.json` it ends with; empty where it does not end so.
pub open spec fn artifact_name(file_name: Seq<char>) -> Seq<char> {
    let seg = last_segment(file_name);
    if seg.len() >= 5 && seg.skip(seg.len() - 5) == ".json"@ {
        seg.take(seg.len() - 5)
    } else {
        seq![]
    }
}

/// The contract that the artifact file `file_name` was compiled for, as the
/// file is named after it.
pub fn artifact_contract_name(file_name: &str) -> (r: String)
    ensures
        r@ == artifact_name(file_name@),
{
    let n = file_name.unicode_len();
    let mut seg: Vec<char> = Vec::new();
    let mut i: usize = 0;
    while i < n
        invariant
            n == file_name@.len(),
            i <= n,
            seg@ == last_segment(file_name@.take(i as int)),
        decreases n - i,
    {
        let c = file_name.get_char(i);
        assert(file_name@.take(i + 1).drop_last() =~= file_name@.take(i as int));
        if c == '/' {
            seg = Vec::new();
        } else {
            seg.push(c);
        }
        i = i + 1;
    }
    assert(file_name@.take(n as int) =~= file_name@);
    proof {
        reveal_strlit(".json");
    }
    let m = seg.len();
    let mut r = String::new();
    if m >= 5 && seg[m - 5] == '.' && seg[m - 4] == 'j' && seg[m - 3] == 's' && seg[m - 2] == 'o' && seg[m - 1] == 'n' {
        assert(seg@.skip(m - 5) =~= ".json"@);
        let mut k: usize = 0;
        while k < m - 5
            invariant
                m == seg@.len(),
                m >= 5,
                k <= m - 5,
                r@ == seg@.take(k as int),
            decreases m - 5 - k,
        {
            push_char(&mut r, seg[k]);
            k = k + 1;
            assert(r@ =~= seg@.take(k as int));
        }
    } else {
        assert(!(seg@.len() >= 5 && seg@.skip(seg@.len() - 5) == ".json"@)) by {
            if seg@.len() >= 5 && seg@.skip(seg@.len() - 5) == ".json"@ {
                assert(seg@.skip(seg@.len() - 5)[0] == seg@[m - 5]);
                assert(seg@.skip(seg@.len() - 5)[1] == seg@[m - 4]);
                assert(seg@.skip(seg@.len() - 5)[2] == seg@[m - 3]);
                assert(seg@.skip(seg@.len() - 5)[3] == seg@[m - 2]);
                assert(seg@.skip(seg@.len() - 5)[4] == seg@[m - 1]);
            }
        }
        assert(r@ =~= Seq::<char>::empty());
    }
    r
}

} // verus!
