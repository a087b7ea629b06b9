//! The syntax tree of a Solidity source file, as the compiler writes it into
//! its build artifacts: nodes with a type, a source range, child nodes, and
//! named attributes.
use vstd::prelude::*;

use crate::text::{push_str, str_eq};

verus! {

/// The kinds of nodes that the debugger looks at; `Other` holds the name of any
/// other kind.
#[derive(Clone, Debug)]
pub enum NodeType {
    ContractDefinition,
    FunctionDefinition,
    ModifierDefinition,
    VariableDeclaration,
    StructDefinition,
    EventDefinition,
    EnumDefinition,
    UsingForDirective,
    UserDefinedValueTypeDefinition,
    ErrorDefinition,
    ParameterList,
    Block,
    ExpressionStatement,
    IfStatement,
    ForStatement,
    VariableDeclarationStatement,
    TryStatement,
    TryCatchClause,
    FunctionCall,
    BinaryOperation,
    Assignment,
    UnaryOperation,
    MemberAccess,
    IndexAccess,
    Other(String),
}

/// The name of a node kind, as the syntax tree writes it.
pub open spec fn node_type_name(t: NodeType) -> Seq<char> {
    match t {
        NodeType::ContractDefinition => "ContractDefinition"@,
        NodeType::FunctionDefinition => "FunctionDefinition"@,
        NodeType::ModifierDefinition => "ModifierDefinition"@,
        NodeType::VariableDeclaration => "VariableDeclaration"@,
        NodeType::StructDefinition => "StructDefinition"@,
        NodeType::EventDefinition => "EventDefinition"@,
        NodeType::EnumDefinition => "EnumDefinition"@,
        NodeType::UsingForDirective => "UsingForDirective"@,
        NodeType::UserDefinedValueTypeDefinition => "UserDefinedValueTypeDefinition"@,
        NodeType::ErrorDefinition => "ErrorDefinition"@,
        NodeType::ParameterList => "ParameterList"@,
        NodeType::Block => "Block"@,
        NodeType::ExpressionStatement => "ExpressionStatement"@,
        NodeType::IfStatement => "IfStatement"@,
        NodeType::ForStatement => "ForStatement"@,
        NodeType::VariableDeclarationStatement => "VariableDeclarationStatement"@,
        NodeType::TryStatement => "TryStatement"@,
        NodeType::TryCatchClause => "TryCatchClause"@,
        NodeType::FunctionCall => "FunctionCall"@,
        NodeType::BinaryOperation => "BinaryOperation"@,
        NodeType::Assignment => "Assignment"@,
        NodeType::UnaryOperation => "UnaryOperation"@,
        NodeType::MemberAccess => "MemberAccess"@,
        NodeType::IndexAccess => "IndexAccess"@,
        NodeType::Other(name) => name@,
    }
}

impl NodeType {
    /// The name of the kind, as the syntax tree writes it.
    pub fn name(&self) -> (r: String)
        ensures
            r@ == node_type_name(*self),
    {
        let mut r = String::new();
        match self {
            NodeType::ContractDefinition => push_str(&mut r, "ContractDefinition"),
            NodeType::FunctionDefinition => push_str(&mut r, "FunctionDefinition"),
            NodeType::ModifierDefinition => push_str(&mut r, "ModifierDefinition"),
            NodeType::VariableDeclaration => push_str(&mut r, "VariableDeclaration"),
            NodeType::StructDefinition => push_str(&mut r, "StructDefinition"),
            NodeType::EventDefinition => push_str(&mut r, "EventDefinition"),
            NodeType::EnumDefinition => push_str(&mut r, "EnumDefinition"),
            NodeType::UsingForDirective => push_str(&mut r, "UsingForDirective"),
            NodeType::UserDefinedValueTypeDefinition => push_str(
                &mut r,
                "UserDefinedValueTypeDefinition",
            ),
            NodeType::ErrorDefinition => push_str(&mut r, "ErrorDefinition"),
            NodeType::ParameterList => push_str(&mut r, "ParameterList"),
            NodeType::Block => push_str(&mut r, "Block"),
            NodeType::ExpressionStatement => push_str(&mut r, "ExpressionStatement"),
            NodeType::IfStatement => push_str(&mut r, "IfStatement"),
            NodeType::ForStatement => push_str(&mut r, "ForStatement"),
            NodeType::VariableDeclarationStatement => push_str(&mut r, "VariableDeclarationStatement"),
            NodeType::TryStatement => push_str(&mut r, "TryStatement"),
            NodeType::TryCatchClause => push_str(&mut r, "TryCatchClause"),
            NodeType::FunctionCall => push_str(&mut r, "FunctionCall"),
            NodeType::BinaryOperation => push_str(&mut r, "BinaryOperation"),
            NodeType::Assignment => push_str(&mut r, "Assignment"),
            NodeType::UnaryOperation => push_str(&mut r, "UnaryOperation"),
            NodeType::MemberAccess => push_str(&mut r, "MemberAccess"),
            NodeType::IndexAccess => push_str(&mut r, "IndexAccess"),
            NodeType::Other(name) => push_str(&mut r, name.as_str()),
        }
        r
    }
}

/// A range of a source file: its first byte, its length where known, and the
/// file where known.
#[derive(Clone, Copy, Debug, PartialEq, Eq, Structural)]
pub struct AstSource {
    pub start: usize,
    pub length: Option<usize>,
    pub index: Option<usize>,
}

/// A node of the syntax tree.
#[derive(Debug)]
pub struct AstNode {
    pub id: Option<usize>,
    pub node_type: NodeType,
    pub src: AstSource,
    pub nodes: Vec<AstNode>,
    pub body: Option<Box<AstNode>>,
    /// the other attributes of the node, by name
    pub other: Vec<(String, Attr)>,
}

/// The value of an attribute of a node.
#[derive(Debug)]
pub enum Attr {
    Node(Box<AstNode>),
    Nodes(Vec<AstNode>),
    Str(String),
    Bool(bool),
    Int(i64),
    /// a list of integers
    Ints(Vec<i64>),
    /// a value of another shape
    Other,
}

/// Two node kinds are the same.
pub open spec fn same_type(a: NodeType, b: NodeType) -> bool {
    match (a, b) {
        (NodeType::Other(x), NodeType::Other(y)) => x@ == y@,
        _ => a == b,
    }
}

/// Two nodes are the same: kind, range, children and attributes.
pub open spec fn same_node(a: AstNode, b: AstNode) -> bool
    decreases a,
{
    &&& a.id == b.id
    &&& same_type(a.node_type, b.node_type)
    &&& a.src == b.src
    &&& {
        proof {
            assert(decreases_to!(a => a.nodes));
            assert(decreases_to!(a.nodes => a.nodes@));
        }
        same_nodes(a.nodes@, b.nodes@)
    }
    &&& match (a.body, b.body) {
        (Some(x), Some(y)) => same_node(*x, *y),
        (None, None) => true,
        _ => false,
    }
    &&& {
        proof {
            assert(decreases_to!(a => a.other));
            assert(decreases_to!(a.other => a.other@));
        }
        same_attrs(a.other@, b.other@)
    }
}

/// Two lists of nodes are the same, node by node.
pub open spec fn same_nodes(a: Seq<AstNode>, b: Seq<AstNode>) -> bool
    decreases a,
{
    &&& a.len() == b.len()
    &&& a.len() > 0 ==> same_nodes(a.drop_last(), b.drop_last()) && same_node(a.last(), b.last())
}

/// Two attribute lists are the same, name by name and value by value.
pub open spec fn same_attrs(a: Seq<(String, Attr)>, b: Seq<(String, Attr)>) -> bool
    decreases a,
{
    &&& a.len() == b.len()
    &&& a.len() > 0 ==> {
        &&& same_attrs(a.drop_last(), b.drop_last())
        &&& a.last().0@ == b.last().0@
        &&& {
            proof {
                assert(decreases_to!(a => a.last()));
                assert(decreases_to!(a.last() => a.last().1));
            }
            same_attr(a.last().1, b.last().1)
        }
    }
}

/// Two attribute values are the same.
pub open spec fn same_attr(a: Attr, b: Attr) -> bool
    decreases a,
{
    match (a, b) {
        (Attr::Node(x), Attr::Node(y)) => same_node(*x, *y),
        (Attr::Nodes(x), Attr::Nodes(y)) => {
            proof {
                assert(decreases_to!(a => x));
                assert(decreases_to!(x => x@));
            }
            same_nodes(x@, y@)
        },
        (Attr::Str(x), Attr::Str(y)) => x@ == y@,
        (Attr::Bool(x), Attr::Bool(y)) => x == y,
        (Attr::Int(x), Attr::Int(y)) => x == y,
        (Attr::Ints(x), Attr::Ints(y)) => x@ == y@,
        (Attr::Other, Attr::Other) => true,
        _ => false,
    }
}

/// A copy of a node kind.
pub fn clone_type(t: &NodeType) -> (r: NodeType)
    ensures
        same_type(r, *t),
        node_type_name(r) == node_type_name(*t),
{
    match t {
        NodeType::ContractDefinition => NodeType::ContractDefinition,
        NodeType::FunctionDefinition => NodeType::FunctionDefinition,
        NodeType::ModifierDefinition => NodeType::ModifierDefinition,
        NodeType::VariableDeclaration => NodeType::VariableDeclaration,
        NodeType::StructDefinition => NodeType::StructDefinition,
        NodeType::EventDefinition => NodeType::EventDefinition,
        NodeType::EnumDefinition => NodeType::EnumDefinition,
        NodeType::UsingForDirective => NodeType::UsingForDirective,
        NodeType::UserDefinedValueTypeDefinition => NodeType::UserDefinedValueTypeDefinition,
        NodeType::ErrorDefinition => NodeType::ErrorDefinition,
        NodeType::ParameterList => NodeType::ParameterList,
        NodeType::Block => NodeType::Block,
        NodeType::ExpressionStatement => NodeType::ExpressionStatement,
        NodeType::IfStatement => NodeType::IfStatement,
        NodeType::ForStatement => NodeType::ForStatement,
        NodeType::VariableDeclarationStatement => NodeType::VariableDeclarationStatement,
        NodeType::TryStatement => NodeType::TryStatement,
        NodeType::TryCatchClause => NodeType::TryCatchClause,
        NodeType::FunctionCall => NodeType::FunctionCall,
        NodeType::BinaryOperation => NodeType::BinaryOperation,
        NodeType::Assignment => NodeType::Assignment,
        NodeType::UnaryOperation => NodeType::UnaryOperation,
        NodeType::MemberAccess => NodeType::MemberAccess,
        NodeType::IndexAccess => NodeType::IndexAccess,
        NodeType::Other(name) => NodeType::Other(name.clone()),
    }
}

/// A copy of a node.
pub fn clone_node(n: &AstNode) -> (r: AstNode)
    ensures
        same_node(r, *n),
    decreases n, 2int,
{
    proof {
        assert(decreases_to!(*n => n.nodes));
        assert(decreases_to!(*n => n.other));
    }
    let nodes = clone_nodes(&n.nodes);
    let body = match &n.body {
        Some(b) => {
            proof {
                assert(decreases_to!(*n => n.body));
            }
            Some(Box::new(clone_node(b)))
        },
        None => None,
    };
    let other = clone_attrs(&n.other);
    AstNode { id: n.id, node_type: clone_type(&n.node_type), src: n.src, nodes, body, other }
}

/// A copy of a list of nodes.
pub fn clone_nodes(v: &Vec<AstNode>) -> (r: Vec<AstNode>)
    ensures
        same_nodes(r@, v@),
    decreases v, 1int,
{
    let mut r: Vec<AstNode> = Vec::new();
    let mut i: usize = 0;
    while i < v.len()
        invariant
            i <= v@.len(),
            same_nodes(r@, v@.take(i as int)),
        decreases v@.len() - i,
    {
        proof {
            assert(decreases_to!(*v => v@));
            assert(decreases_to!(v@ => v@[i as int]));
        }
        let c = clone_node(&v[i]);
        let ghost before = r@;
        r.push(c);
        proof {
            assert(r@.drop_last() =~= before);
            assert(v@.take(i + 1).drop_last() =~= v@.take(i as int));
        }
        i = i + 1;
    }
    assert(v@.take(v@.len() as int) =~= v@);
    r
}

fn copy_ints(v: &Vec<i64>) -> (r: Vec<i64>)
    ensures
        r@ == v@,
{
    let mut r: Vec<i64> = Vec::new();
    let mut i: usize = 0;
    while i < v.len()
        invariant
            i <= v@.len(),
            r@ == v@.take(i as int),
        decreases v@.len() - i,
    {
        r.push(v[i]);
        i = i + 1;
        assert(r@ =~= v@.take(i as int));
    }
    r
}

/// A copy of an attribute value.
pub fn clone_attr(a: &Attr) -> (r: Attr)
    ensures
        same_attr(r, *a),
    decreases a, 2int,
{
    match a {
        Attr::Node(b) => Attr::Node(Box::new(clone_node(b))),
        Attr::Nodes(v) => Attr::Nodes(clone_nodes(v)),
        Attr::Str(s) => Attr::Str(s.clone()),
        Attr::Bool(b) => Attr::Bool(*b),
        Attr::Int(i) => Attr::Int(*i),
        Attr::Ints(v) => Attr::Ints(copy_ints(v)),
        Attr::Other => Attr::Other,
    }
}

/// A copy of an attribute list.
pub fn clone_attrs(v: &Vec<(String, Attr)>) -> (r: Vec<(String, Attr)>)
    ensures
        same_attrs(r@, v@),
    decreases v, 1int,
{
    let mut r: Vec<(String, Attr)> = Vec::new();
    let mut i: usize = 0;
    while i < v.len()
        invariant
            i <= v@.len(),
            same_attrs(r@, v@.take(i as int)),
        decreases v@.len() - i,
    {
        proof {
            assert(decreases_to!(*v => v@));
            assert(decreases_to!(v@ => v@[i as int]));
            assert(decreases_to!(v@[i as int] => v@[i as int].1));
        }
        let c = (v[i].0.clone(), clone_attr(&v[i].1));
        let ghost before = r@;
        r.push(c);
        proof {
            assert(r@.drop_last() =~= before);
            assert(v@.take(i + 1).drop_last() =~= v@.take(i as int));
        }
        i = i + 1;
    }
    assert(v@.take(v@.len() as int) =~= v@);
    r
}

/// The position of the first attribute named `key`.
pub open spec fn find_attr(attrs: Seq<(String, Attr)>, key: Seq<char>) -> Option<int>
    decreases attrs.len(),
{
    if attrs.len() == 0 {
        None
    } else {
        match find_attr(attrs.drop_last(), key) {
            Some(i) => Some(i),
            None => if attrs.last().0@ == key {
                Some(attrs.len() - 1)
            } else {
                None
            },
        }
    }
}

pub proof fn lemma_find_attr_index(attrs: Seq<(String, Attr)>, key: Seq<char>)
    ensures
        find_attr(attrs, key) matches Some(i) ==> 0 <= i < attrs.len() && attrs[i].0@ == key,
    decreases attrs.len(),
{
    if attrs.len() > 0 {
        lemma_find_attr_index(attrs.drop_last(), key);
    }
}

proof fn lemma_find_attr_prefix(attrs: Seq<(String, Attr)>, key: Seq<char>, k: int)
    requires
        0 <= k <= attrs.len(),
        find_attr(attrs.take(k), key) is Some,
    ensures
        find_attr(attrs, key) == find_attr(attrs.take(k), key),
    decreases attrs.len() - k,
{
    if k < attrs.len() {
        assert(attrs.take(k + 1).drop_last() =~= attrs.take(k));
        lemma_find_attr_prefix(attrs, key, k + 1);
    } else {
        assert(attrs.take(k) =~= attrs);
    }
}

/// The value of the attribute `key` of `n`.
pub open spec fn attr(n: AstNode, key: Seq<char>) -> Option<Attr> {
    match find_attr(n.other@, key) {
        Some(i) => Some(n.other@[i].1),
        None => None,
    }
}

/// The attribute `key` of `n`, where it is a node.
pub open spec fn attr_node(n: AstNode, key: Seq<char>) -> Option<AstNode> {
    match attr(n, key) {
        Some(Attr::Node(b)) => Some(*b),
        _ => None,
    }
}

/// The attribute `key` of `n`, where it is a list of nodes.
pub open spec fn attr_nodes(n: AstNode, key: Seq<char>) -> Option<Seq<AstNode>> {
    match attr(n, key) {
        Some(Attr::Nodes(v)) => Some(v@),
        _ => None,
    }
}

/// The attribute `key` of `n`, where it is a string.
pub open spec fn attr_str(n: AstNode, key: Seq<char>) -> Option<Seq<char>> {
    match attr(n, key) {
        Some(Attr::Str(s)) => Some(s@),
        _ => None,
    }
}

/// The attribute `key` of `n`, where it is a boolean.
pub open spec fn attr_bool(n: AstNode, key: Seq<char>) -> Option<bool> {
    match attr(n, key) {
        Some(Attr::Bool(b)) => Some(b),
        _ => None,
    }
}

/// The attribute `key` of `n`, where it is a list of integers none of which
/// is negative or too large for a `usize`.
pub open spec fn attr_usizes(n: AstNode, key: Seq<char>) -> Option<Seq<usize>> {
    match attr(n, key) {
        Some(Attr::Ints(v)) => if forall|i: int| 0 <= i < v@.len() ==> 0 <= #[trigger] v@[i] <= usize::MAX {
            Some(v@.map_values(|x: i64| x as usize))
        } else {
            None
        },
        _ => None,
    }
}

/// The attribute `key` of `n`, where it is an integer that fits in 32 bits.
pub open spec fn attr_i32(n: AstNode, key: Seq<char>) -> Option<i32> {
    match attr(n, key) {
        Some(Attr::Int(i)) => if i32::MIN <= i <= i32::MAX {
            Some(i as i32)
        } else {
            None
        },
        _ => None,
    }
}

/// A node looked up among the attributes of `n` is a part of `n`.
pub proof fn lemma_attr_node_decreases(n: AstNode, key: Seq<char>)
    ensures
        attr_node(n, key) matches Some(c) ==> decreases_to!(n => c),
        attr_nodes(n, key) matches Some(v) ==> forall|i: int| 0 <= i < v.len() ==> decreases_to!(n => v[i]),
        attr_nodes(n, key) matches Some(v) ==> decreases_to!(n => v),
{
    lemma_find_attr_index(n.other@, key);
    if let Some(i) = find_attr(n.other@, key) {
        assert(decreases_to!(n => n.other));
        assert(decreases_to!(n.other => n.other@));
        assert(decreases_to!(n.other@ => n.other@[i]));
        assert(decreases_to!(n.other@[i] => n.other@[i].1));
        match n.other@[i].1 {
            Attr::Node(b) => {
                assert(decreases_to!(n.other@[i].1 => *b));
            },
            Attr::Nodes(v) => {
                assert(decreases_to!(n.other@[i].1 => v));
                assert(decreases_to!(v => v@));
                assert forall|j: int| 0 <= j < v@.len() implies decreases_to!(n => v@[j]) by {
                    assert(decreases_to!(n.other@[i].1 => v));
                    assert(decreases_to!(v => v@));
                    assert(decreases_to!(v@ => v@[j]));
                }
            },
            _ => {},
        }
    }
}

/// The value of the attribute `key` of `n`.
pub fn attribute<'a>(n: &'a AstNode, key: &str) -> (r: Option<&'a Attr>)
    ensures
        match find_attr(n.other@, key@) {
            Some(i) => r matches Some(a) && *a == n.other@[i].1,
            None => r is None,
        },
{
    let len = n.other.len();
    let mut i: usize = 0;
    while i < len
        invariant
            len == n.other@.len(),
            i <= len,
            find_attr(n.other@.take(i as int), key@) is None,
        decreases len - i,
    {
        assert(n.other@.take(i + 1).drop_last() =~= n.other@.take(i as int));
        if str_eq(n.other[i].0.as_str(), key) {
            assert(find_attr(n.other@.take(i + 1), key@) == Some(i as int));
            proof {
                lemma_find_attr_prefix(n.other@, key@, i as int + 1);
            }
            return Some(&n.other[i].1);
        }
        i = i + 1;
    }
    assert(n.other@.take(len as int) =~= n.other@);
    None
}

/// The attribute `key` of `n`, where it is a node.
pub fn node_attribute<'a>(n: &'a AstNode, key: &str) -> (r: Option<&'a AstNode>)
    ensures
        match attr_node(*n, key@) {
            Some(c) => r matches Some(x) && *x == c,
            None => r is None,
        },
{
    match attribute(n, key) {
        Some(Attr::Node(b)) => Some(&**b),
        _ => None,
    }
}

/// The attribute `key` of `n`, where it is a list of nodes.
pub fn nodes_attribute<'a>(n: &'a AstNode, key: &str) -> (r: Option<&'a Vec<AstNode>>)
    ensures
        match attr_nodes(*n, key@) {
            Some(v) => r matches Some(x) && x@ == v,
            None => r is None,
        },
{
    match attribute(n, key) {
        Some(Attr::Nodes(v)) => Some(v),
        _ => None,
    }
}

/// The attribute `key` of `n`, where it is a string.
pub fn str_attribute<'a>(n: &'a AstNode, key: &str) -> (r: Option<&'a String>)
    ensures
        match attr_str(*n, key@) {
            Some(t) => r matches Some(x) && x@ == t,
            None => r is None,
        },
{
    match attribute(n, key) {
        Some(Attr::Str(s)) => Some(s),
        _ => None,
    }
}

/// The attribute `key` of `n`, where it is a boolean.
pub fn bool_attribute(n: &AstNode, key: &str) -> (r: Option<bool>)
    ensures
        r == attr_bool(*n, key@),
{
    match attribute(n, key) {
        Some(Attr::Bool(b)) => Some(*b),
        _ => None,
    }
}

/// The attribute `key` of `n`, where it is a list of integers that all fit
/// in a `usize`.
pub fn usizes_attribute(n: &AstNode, key: &str) -> (r: Option<Vec<usize>>)
    ensures
        match attr_usizes(*n, key@) {
            Some(s) => r matches Some(v) && v@ == s,
            None => r is None,
        },
{
    match attribute(n, key) {
        Some(Attr::Ints(v)) => {
            let mut r: Vec<usize> = Vec::new();
            let mut i: usize = 0;
            let ghost found = attr(*n, key@);
            assert(found == Some(Attr::Ints(*v)));
            while i < v.len()
                invariant
                    found == attr(*n, key@),
                    found == Some(Attr::Ints(*v)),
                    i <= v@.len(),
                    forall|j: int| 0 <= j < i ==> 0 <= #[trigger] v@[j] <= usize::MAX,
                    r@ == v@.take(i as int).map_values(|x: i64| x as usize),
                decreases v@.len() - i,
            {
                let x = v[i];
                if x < 0 || x as u128 > usize::MAX as u128 {
                    assert(!(0 <= v@[i as int] <= usize::MAX));
                    return None;
                }
                r.push(x as usize);
                i = i + 1;
                assert(r@ =~= v@.take(i as int).map_values(|x: i64| x as usize));
            }
            assert(v@.take(v@.len() as int) =~= v@);
            Some(r)
        },
        _ => None,
    }
}

/// The attribute `key` of `n`, where it is an integer that fits in 32 bits.
pub fn i32_attribute(n: &AstNode, key: &str) -> (r: Option<i32>)
    ensures
        r == attr_i32(*n, key@),
{
    match attribute(n, key) {
        Some(Attr::Int(i)) => {
            if i32::MIN as i64 <= *i && *i <= i32::MAX as i64 {
                Some(*i as i32)
            } else {
                None
            }
        },
        _ => None,
    }
}

/// Sameness of nodes carries over from one node to a third.
pub proof fn lemma_same_node_trans(a: AstNode, b: AstNode, c: AstNode)
    requires
        same_node(a, b),
        same_node(b, c),
    ensures
        same_node(a, c),
    decreases a, 1int,
{
    assert(decreases_to!(a => a.nodes));
    assert(decreases_to!(a => a.other));
    lemma_same_nodes_trans(a.nodes@, b.nodes@, c.nodes@);
    lemma_same_attrs_trans(a.other@, b.other@, c.other@);
    if let (Some(x), Some(y), Some(z)) = (a.body, b.body, c.body) {
        assert(decreases_to!(a => a.body));
        lemma_same_node_trans(*x, *y, *z);
    }
}

pub proof fn lemma_same_nodes_trans(a: Seq<AstNode>, b: Seq<AstNode>, c: Seq<AstNode>)
    requires
        same_nodes(a, b),
        same_nodes(b, c),
    ensures
        same_nodes(a, c),
    decreases a, 0int,
{
    if a.len() > 0 {
        lemma_same_nodes_trans(a.drop_last(), b.drop_last(), c.drop_last());
        lemma_same_node_trans(a.last(), b.last(), c.last());
    }
}

pub proof fn lemma_same_attrs_trans(a: Seq<(String, Attr)>, b: Seq<(String, Attr)>, c: Seq<(String, Attr)>)
    requires
        same_attrs(a, b),
        same_attrs(b, c),
    ensures
        same_attrs(a, c),
    decreases a, 0int,
{
    if a.len() > 0 {
        lemma_same_attrs_trans(a.drop_last(), b.drop_last(), c.drop_last());
        assert(decreases_to!(a => a.last()));
        assert(decreases_to!(a.last() => a.last().1));
        lemma_same_attr_trans(a.last().1, b.last().1, c.last().1);
    }
}

pub proof fn lemma_same_attr_trans(a: Attr, b: Attr, c: Attr)
    requires
        same_attr(a, b),
        same_attr(b, c),
    ensures
        same_attr(a, c),
    decreases a, 0int,
{
    match (a, b, c) {
        (Attr::Node(x), Attr::Node(y), Attr::Node(z)) => {
            lemma_same_node_trans(*x, *y, *z);
        },
        (Attr::Nodes(x), Attr::Nodes(y), Attr::Nodes(z)) => {
            assert(decreases_to!(a => x));
            assert(decreases_to!(x => x@));
            lemma_same_nodes_trans(x@, y@, z@);
        },
        _ => {},
    }
}

} // verus!
