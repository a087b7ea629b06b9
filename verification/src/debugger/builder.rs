//! Turning the recorded execution of a test into the steps of a debug trace:
//! each executed instruction is tied through the source maps to a function or
//! statement, runs of instructions on the same source range become one step,
//! and the call trace follows the calls into and out of functions.
use std::collections::HashMap;
use vstd::prelude::*;

use crate::debugger::tracer::{
    is_call_op_code, DebugStep, FunctionCallKind, SourceLocation, StateSnapshot, StepKind, CREATE,
    REVERT,
};
use crate::debugger::tracer::{clone_variable, same_variable, DebugTrace, CALL, Variable};
use crate::debugger::context::TraceContext;
use crate::debugger::dump::{artifacts_named, ArtifactError, Sources};
use crate::debugger::metrics::{Action, MetricsRecorder};
use crate::debugger::units::{
    copy_ids, same_function, same_range, source_element_matches, unit_search, BytecodeMap, DebugUnit, Jump,
    MatchResult, Matched, SourceElement, InstructionKind,
};

verus! {

broadcast use vstd::std_specs::hash::group_hash_axioms;

/// A write to the storage of a contract.
pub struct StorageChange {
    pub key: Vec<u8>,
    pub value: Vec<u8>,
}

/// One executed instruction, as the debug dump records it.
pub struct CallTraceStep {
    pub pc: usize,
    pub op: u8,
    /// the contract whose storage the instruction works on
    pub contract: u64,
    pub memory: Vec<u8>,
    /// the stack words, each as its big-endian bytes
    pub stack: Vec<Vec<u8>>,
    pub storage_change: Option<StorageChange>,
}

/// How a node of the execution was entered.
#[derive(Clone, Copy, Debug, PartialEq, Eq, Structural)]
pub enum DebugNodeKind {
    Call,
    Create,
    StaticCall,
}

impl DebugNodeKind {
    pub fn is_create(&self) -> (r: bool)
        ensures
            r == (*self is Create),
    {
        match self {
            DebugNodeKind::Create => true,
            _ => false,
        }
    }
}

/// The instructions that one call (or creation) of a contract executed.
pub struct DebugNode {
    pub kind: DebugNodeKind,
    /// the contract that was called
    pub address: u64,
    /// the name under which the dump identifies that contract
    pub contract: String,
    pub steps: Vec<CallTraceStep>,
}

/// Where a variable's value is during the execution.
#[derive(Clone, Copy, Debug, PartialEq, Eq, Structural)]
pub enum Assignment {
    /// at this position of the stack (counted from the bottom)
    Stack(usize),
}

/// Why the steps of a trace could not be built.
#[derive(Clone, Copy, Debug, PartialEq, Eq, Structural)]
pub enum TraceError {
    FoundFunctionEntryWithoutCall,
    FoundFunctionExitWithoutCall,
    /// the dump breaks what a debug dump guarantees: it runs a contract without
    /// debug information, an instruction that the source maps do not cover, or
    /// a stack too short for the variables of the function or statement run
    MalformedDump,
}

/// Whether two byte strings are equal.
pub fn bytes_eq(a: &Vec<u8>, b: &Vec<u8>) -> (r: bool)
    ensures
        r == (a@ == b@),
{
    if a.len() != b.len() {
        return false;
    }
    let mut i: usize = 0;
    while i < a.len()
        invariant
            a@.len() == b@.len(),
            i <= a@.len(),
            forall|j: int| 0 <= j < i ==> a@[j] == b@[j],
        decreases a@.len() - i,
    {
        if a[i] != b[i] {
            return false;
        }
        i = i + 1;
    }
    assert(a@ =~= b@);
    true
}

pub fn copy_bytes(a: &Vec<u8>) -> (r: Vec<u8>)
    ensures
        r@ == a@,
{
    let mut r: Vec<u8> = Vec::new();
    let mut i: usize = 0;
    while i < a.len()
        invariant
            i <= a@.len(),
            r@ == a@.take(i as int),
        decreases a@.len() - i,
    {
        r.push(a[i]);
        i = i + 1;
        assert(r@ =~= a@.take(i as int));
    }
    assert(a@.take(a@.len() as int) =~= a@);
    r
}

/// The byte strings of `s`.
pub open spec fn words_view(s: Seq<Vec<u8>>) -> Seq<Seq<u8>> {
    s.map_values(|w: Vec<u8>| w@)
}

pub fn copy_words(a: &Vec<Vec<u8>>) -> (r: Vec<Vec<u8>>)
    ensures
        words_view(r@) == words_view(a@),
{
    let mut r: Vec<Vec<u8>> = Vec::new();
    let mut i: usize = 0;
    while i < a.len()
        invariant
            i <= a@.len(),
            r@.len() == i,
            forall|j: int| 0 <= j < i ==> (#[trigger] r@[j])@ == a@[j]@,
        decreases a@.len() - i,
    {
        r.push(copy_bytes(&a[i]));
        i = i + 1;
    }
    assert(words_view(r@) =~= words_view(a@));
    r
}

/// No two slots of the list have the same key.
pub open spec fn keys_unique(slots: Seq<(Vec<u8>, Vec<u8>)>) -> bool {
    forall|i: int, j: int| 0 <= i < j < slots.len() ==> #[trigger] slots[i].0@ != #[trigger] slots[j].0@
}

/// The slots as a map from key to value.
pub open spec fn slots_map(slots: Seq<(Vec<u8>, Vec<u8>)>) -> Map<Seq<u8>, Seq<u8>> {
    Map::new(
        |k: Seq<u8>| exists|i: int| 0 <= i < slots.len() && #[trigger] slots[i].0@ == k,
        |k: Seq<u8>| slots[choose|i: int| 0 <= i < slots.len() && #[trigger] slots[i].0@ == k].1@,
    )
}

proof fn lemma_slots_map_update(slots: Seq<(Vec<u8>, Vec<u8>)>, idx: int, e: (Vec<u8>, Vec<u8>))
    requires
        keys_unique(slots),
        0 <= idx < slots.len(),
        slots[idx].0@ == e.0@,
    ensures
        keys_unique(slots.update(idx, e)),
        slots_map(slots.update(idx, e)) == slots_map(slots).insert(e.0@, e.1@),
{
    let u = slots.update(idx, e);
    assert forall|a: int, b: int| 0 <= a < b < u.len() implies #[trigger] u[a].0@ != #[trigger] u[b].0@ by {
        if a != idx {
            assert(u[a] == slots[a]);
        }
        if b != idx {
            assert(u[b] == slots[b]);
        }
        if a == idx {
            assert(slots[a].0@ != slots[b].0@);
        }
        if b == idx {
            assert(slots[a].0@ != slots[b].0@);
        }
    }
    assert forall|k: Seq<u8>| #[trigger] slots_map(u).contains_key(k) <==> slots_map(slots).insert(
        e.0@,
        e.1@,
    ).contains_key(k) by {
        if slots_map(u).contains_key(k) {
            let i = choose|i: int| 0 <= i < u.len() && #[trigger] u[i].0@ == k;
            if i != idx {
                assert(slots[i].0@ == k);
            }
        }
        if slots_map(slots).contains_key(k) {
            let i = choose|i: int| 0 <= i < slots.len() && #[trigger] slots[i].0@ == k;
            assert(u[i].0@ == k);
        }
        if k == e.0@ {
            assert(u[idx].0@ == k);
        }
    }
    assert forall|k: Seq<u8>| #[trigger] slots_map(u).contains_key(k) implies slots_map(u)[k]
        == slots_map(slots).insert(e.0@, e.1@)[k] by {
        let i = choose|i: int| 0 <= i < u.len() && #[trigger] u[i].0@ == k;
        if k == e.0@ {
            assert(u[idx].0@ == k);
            assert(i == idx);
        } else {
            assert(slots[i].0@ == k);
            let j = choose|j: int| 0 <= j < slots.len() && #[trigger] slots[j].0@ == k;
            assert(i == j);
        }
    }
    assert(slots_map(u) =~= slots_map(slots).insert(e.0@, e.1@));
}

proof fn lemma_slots_map_push(slots: Seq<(Vec<u8>, Vec<u8>)>, e: (Vec<u8>, Vec<u8>))
    requires
        keys_unique(slots),
        forall|i: int| 0 <= i < slots.len() ==> #[trigger] slots[i].0@ != e.0@,
    ensures
        keys_unique(slots.push(e)),
        slots_map(slots.push(e)) == slots_map(slots).insert(e.0@, e.1@),
{
    let u = slots.push(e);
    let n = slots.len() as int;
    assert forall|a: int, b: int| 0 <= a < b < u.len() implies #[trigger] u[a].0@ != #[trigger] u[b].0@ by {
        assert(u[a] == slots[a]);
        if b != n {
            assert(u[b] == slots[b]);
        }
    }
    assert forall|k: Seq<u8>| #[trigger] slots_map(u).contains_key(k) <==> slots_map(slots).insert(
        e.0@,
        e.1@,
    ).contains_key(k) by {
        if slots_map(u).contains_key(k) {
            let i = choose|i: int| 0 <= i < u.len() && #[trigger] u[i].0@ == k;
            if i != n {
                assert(slots[i].0@ == k);
            }
        }
        if slots_map(slots).contains_key(k) {
            let i = choose|i: int| 0 <= i < slots.len() && #[trigger] slots[i].0@ == k;
            assert(u[i].0@ == k);
        }
        if k == e.0@ {
            assert(u[n].0@ == k);
        }
    }
    assert forall|k: Seq<u8>| #[trigger] slots_map(u).contains_key(k) implies slots_map(u)[k]
        == slots_map(slots).insert(e.0@, e.1@)[k] by {
        let i = choose|i: int| 0 <= i < u.len() && #[trigger] u[i].0@ == k;
        if k == e.0@ {
            assert(u[n].0@ == k);
            assert(i == n);
        } else {
            assert(slots[i].0@ == k);
            let j = choose|j: int| 0 <= j < slots.len() && #[trigger] slots[j].0@ == k;
            assert(i == j);
        }
    }
    assert(slots_map(u) =~= slots_map(slots).insert(e.0@, e.1@));
}

/// Writes `value` under `key`.
fn put_slot(slots: &mut Vec<(Vec<u8>, Vec<u8>)>, key: Vec<u8>, value: Vec<u8>)
    requires
        keys_unique(old(slots)@),
    ensures
        keys_unique(final(slots)@),
        slots_map(final(slots)@) == slots_map(old(slots)@).insert(key@, value@),
{
    let n = slots.len();
    let mut i: usize = 0;
    while i < n
        invariant
            slots@ == old(slots)@,
            keys_unique(slots@),
            n == slots@.len(),
            i <= n,
            forall|j: int| 0 <= j < i ==> #[trigger] slots@[j].0@ != key@,
        decreases n - i,
    {
        if bytes_eq(&slots[i].0, &key) {
            let ghost k = key@;
            let ghost v = value@;
            proof {
                lemma_slots_map_update(slots@, i as int, (key, value));
            }
            slots.set(i, (key, value));
            assert(slots_map(slots@) == slots_map(old(slots)@).insert(k, v));
            return;
        }
        i = i + 1;
    }
    proof {
        lemma_slots_map_push(slots@, (key, value));
    }
    slots.push((key, value));
}

/// A copy of the slots.
fn copy_slots(slots: &Vec<(Vec<u8>, Vec<u8>)>) -> (r: Vec<(Vec<u8>, Vec<u8>)>)
    requires
        keys_unique(slots@),
    ensures
        keys_unique(r@),
        slots_map(r@) == slots_map(slots@),
{
    let mut r: Vec<(Vec<u8>, Vec<u8>)> = Vec::new();
    let mut i: usize = 0;
    while i < slots.len()
        invariant
            keys_unique(slots@),
            i <= slots@.len(),
            r@.len() == i,
            forall|j: int| 0 <= j < i ==> (#[trigger] r@[j]).0@ == slots@[j].0@ && r@[j].1@ == slots@[j].1@,
        decreases slots@.len() - i,
    {
        r.push((copy_bytes(&slots[i].0), copy_bytes(&slots[i].1)));
        i = i + 1;
    }
    assert(keys_unique(r@)) by {
        assert forall|a: int, b: int| 0 <= a < b < r@.len() implies #[trigger] r@[a].0@
            != #[trigger] r@[b].0@ by {
            assert(slots@[a].0@ != slots@[b].0@);
        }
    }
    assert forall|k: Seq<u8>| #[trigger] slots_map(r@).contains_key(k) <==> slots_map(
        slots@,
    ).contains_key(k) by {
        if slots_map(r@).contains_key(k) {
            let a = choose|a: int| 0 <= a < r@.len() && #[trigger] r@[a].0@ == k;
            assert(slots@[a].0@ == k);
        }
        if slots_map(slots@).contains_key(k) {
            let a = choose|a: int| 0 <= a < slots@.len() && #[trigger] slots@[a].0@ == k;
            assert(r@[a].0@ == k);
        }
    }
    assert forall|k: Seq<u8>| #[trigger] slots_map(r@).contains_key(k) implies slots_map(r@)[k]
        == slots_map(slots@)[k] by {
        let a = choose|a: int| 0 <= a < r@.len() && #[trigger] r@[a].0@ == k;
        let b = choose|b: int| 0 <= b < slots@.len() && #[trigger] slots@[b].0@ == k;
        assert(slots@[a].0@ == k);
        assert(a == b);
    }
    assert(slots_map(r@) =~= slots_map(slots@));
    r
}

/// The storage of each contract, by contract, as slot lists.
pub open spec fn contracts_ok(cs: Seq<(u64, Vec<(Vec<u8>, Vec<u8>)>)>) -> bool {
    &&& forall|i: int, j: int| 0 <= i < j < cs.len() ==> #[trigger] cs[i].0 != #[trigger] cs[j].0
    &&& forall|i: int| 0 <= i < cs.len() ==> keys_unique(#[trigger] cs[i].1@)
}

/// The storage of each contract as a map.
pub open spec fn contracts_map(cs: Seq<(u64, Vec<(Vec<u8>, Vec<u8>)>)>) -> Map<
    u64,
    Map<Seq<u8>, Seq<u8>>,
> {
    Map::new(
        |a: u64| exists|i: int| 0 <= i < cs.len() && #[trigger] cs[i].0 == a,
        |a: u64| slots_map(cs[choose|i: int| 0 <= i < cs.len() && #[trigger] cs[i].0 == a].1@),
    )
}

/// The storage of contract `a`: empty where nothing was written to it.
pub open spec fn storage_get(st: Map<u64, Map<Seq<u8>, Seq<u8>>>, a: u64) -> Map<Seq<u8>, Seq<u8>> {
    if st.contains_key(a) {
        st[a]
    } else {
        Map::empty()
    }
}

/// The storage after writing `v` under `k` in contract `a`.
pub open spec fn storage_write(
    st: Map<u64, Map<Seq<u8>, Seq<u8>>>,
    a: u64,
    k: Seq<u8>,
    v: Seq<u8>,
) -> Map<u64, Map<Seq<u8>, Seq<u8>>> {
    st.insert(a, storage_get(st, a).insert(k, v))
}

/// The storage after the writes of the instructions from `from` up to `to`.
pub open spec fn apply_changes(
    st: Map<u64, Map<Seq<u8>, Seq<u8>>>,
    steps: Seq<CallTraceStep>,
    from: int,
    to: int,
) -> Map<u64, Map<Seq<u8>, Seq<u8>>>
    decreases to - from,
{
    if to <= from {
        st
    } else {
        let prev = apply_changes(st, steps, from, to - 1);
        match steps[to - 1].storage_change {
            Some(c) => storage_write(prev, steps[to - 1].contract, c.key@, c.value@),
            None => prev,
        }
    }
}

proof fn lemma_contracts_map_update(
    cs: Seq<(u64, Vec<(Vec<u8>, Vec<u8>)>)>,
    idx: int,
    e: (u64, Vec<(Vec<u8>, Vec<u8>)>),
)
    requires
        contracts_ok(cs),
        0 <= idx < cs.len(),
        cs[idx].0 == e.0,
        keys_unique(e.1@),
    ensures
        contracts_ok(cs.update(idx, e)),
        contracts_map(cs.update(idx, e)) == contracts_map(cs).insert(e.0, slots_map(e.1@)),
{
    let u = cs.update(idx, e);
    assert forall|i: int| 0 <= i < u.len() implies keys_unique(#[trigger] u[i].1@) by {
        if i != idx {
            assert(u[i] == cs[i]);
        }
    }
    assert forall|a: u64| #[trigger] contracts_map(u).contains_key(a) <==> contracts_map(cs).insert(
        e.0,
        slots_map(e.1@),
    ).contains_key(a) by {
        if contracts_map(u).contains_key(a) {
            let i = choose|i: int| 0 <= i < u.len() && #[trigger] u[i].0 == a;
            if i != idx {
                assert(cs[i].0 == a);
            }
        }
        if contracts_map(cs).contains_key(a) {
            let i = choose|i: int| 0 <= i < cs.len() && #[trigger] cs[i].0 == a;
            assert(u[i].0 == a);
        }
        if a == e.0 {
            assert(u[idx].0 == a);
        }
    }
    assert forall|a: u64| #[trigger] contracts_map(u).contains_key(a) implies contracts_map(u)[a]
        == contracts_map(cs).insert(e.0, slots_map(e.1@))[a] by {
        let i = choose|i: int| 0 <= i < u.len() && #[trigger] u[i].0 == a;
        if a == e.0 {
            assert(u[idx].0 == a);
            assert(i == idx);
        } else {
            assert(cs[i].0 == a);
            let j = choose|j: int| 0 <= j < cs.len() && #[trigger] cs[j].0 == a;
            assert(i == j);
        }
    }
    assert(contracts_map(u) =~= contracts_map(cs).insert(e.0, slots_map(e.1@)));
}

proof fn lemma_contracts_map_push(cs: Seq<(u64, Vec<(Vec<u8>, Vec<u8>)>)>, e: (u64, Vec<(Vec<u8>, Vec<u8>)>))
    requires
        contracts_ok(cs),
        forall|i: int| 0 <= i < cs.len() ==> #[trigger] cs[i].0 != e.0,
        keys_unique(e.1@),
    ensures
        contracts_ok(cs.push(e)),
        contracts_map(cs.push(e)) == contracts_map(cs).insert(e.0, slots_map(e.1@)),
{
    let u = cs.push(e);
    let n = cs.len() as int;
    assert forall|i: int| 0 <= i < u.len() implies keys_unique(#[trigger] u[i].1@) by {
        if i != n {
            assert(u[i] == cs[i]);
        }
    }
    assert forall|a: u64| #[trigger] contracts_map(u).contains_key(a) <==> contracts_map(cs).insert(
        e.0,
        slots_map(e.1@),
    ).contains_key(a) by {
        if contracts_map(u).contains_key(a) {
            let i = choose|i: int| 0 <= i < u.len() && #[trigger] u[i].0 == a;
            if i != n {
                assert(cs[i].0 == a);
            }
        }
        if contracts_map(cs).contains_key(a) {
            let i = choose|i: int| 0 <= i < cs.len() && #[trigger] cs[i].0 == a;
            assert(u[i].0 == a);
        }
        if a == e.0 {
            assert(u[n].0 == a);
        }
    }
    assert forall|a: u64| #[trigger] contracts_map(u).contains_key(a) implies contracts_map(u)[a]
        == contracts_map(cs).insert(e.0, slots_map(e.1@))[a] by {
        let i = choose|i: int| 0 <= i < u.len() && #[trigger] u[i].0 == a;
        if a == e.0 {
            assert(u[n].0 == a);
            assert(i == n);
        } else {
            assert(cs[i].0 == a);
            let j = choose|j: int| 0 <= j < cs.len() && #[trigger] cs[j].0 == a;
            assert(i == j);
        }
    }
    assert(contracts_map(u) =~= contracts_map(cs).insert(e.0, slots_map(e.1@)));
}

/// Writes `value` under `key` in the storage of `contract`.
fn write_storage(cs: &mut Vec<(u64, Vec<(Vec<u8>, Vec<u8>)>)>, contract: u64, key: Vec<u8>, value: Vec<u8>)
    requires
        contracts_ok(old(cs)@),
    ensures
        contracts_ok(final(cs)@),
        contracts_map(final(cs)@) == storage_write(contracts_map(old(cs)@), contract, key@, value@),
{
    let n = cs.len();
    let mut i: usize = 0;
    while i < n
        invariant
            cs@ == old(cs)@,
            contracts_ok(cs@),
            n == cs@.len(),
            i <= n,
            forall|j: int| 0 <= j < i ==> #[trigger] cs@[j].0 != contract,
        decreases n - i,
    {
        if cs[i].0 == contract {
            let ghost old_cs = cs@;
            assert(contracts_map(old_cs).contains_key(contract));
            assert(contracts_map(old_cs)[contract] == slots_map(old_cs[i as int].1@)) by {
                let j = choose|j: int| 0 <= j < old_cs.len() && #[trigger] old_cs[j].0 == contract;
                assert(i == j);
            }
            let mut slots: Vec<(Vec<u8>, Vec<u8>)> = Vec::new();
            let mut entry = (contract, Vec::new());
            std::mem::swap(&mut entry, &mut cs[i]);
            proof {
                assert(entry == old_cs[i as int]);
            }
            std::mem::swap(&mut slots, &mut entry.1);
            put_slot(&mut slots, key, value);
            let ghost new_entry = (contract, slots);
            proof {
                lemma_contracts_map_update(old_cs, i as int, (contract, slots));
            }
            cs.set(i, (contract, slots));
            assert(cs@ == old_cs.update(i as int, new_entry));
            return;
        }
        i = i + 1;
    }
    assert(!contracts_map(cs@).contains_key(contract));
    let mut slots: Vec<(Vec<u8>, Vec<u8>)> = Vec::new();
    proof {
        assert(slots_map(slots@) =~= Map::<Seq<u8>, Seq<u8>>::empty());
    }
    put_slot(&mut slots, key, value);
    proof {
        lemma_contracts_map_push(cs@, (contract, slots));
    }
    cs.push((contract, slots));
}

/// A copy of the storage of `contract`: empty where nothing was written to it.
fn storage_of(cs: &Vec<(u64, Vec<(Vec<u8>, Vec<u8>)>)>, contract: u64) -> (r: Vec<(Vec<u8>, Vec<u8>)>)
    requires
        contracts_ok(cs@),
    ensures
        keys_unique(r@),
        slots_map(r@) == storage_get(contracts_map(cs@), contract),
{
    let n = cs.len();
    let mut i: usize = 0;
    while i < n
        invariant
            contracts_ok(cs@),
            n == cs@.len(),
            i <= n,
            forall|j: int| 0 <= j < i ==> #[trigger] cs@[j].0 != contract,
        decreases n - i,
    {
        if cs[i].0 == contract {
            assert(contracts_map(cs@)[contract] == slots_map(cs@[i as int].1@)) by {
                let j = choose|j: int| 0 <= j < cs@.len() && #[trigger] cs@[j].0 == contract;
                assert(i == j);
            }
            assert(keys_unique(cs@[i as int].1@));
            return copy_slots(&cs[i].1);
        }
        i = i + 1;
    }
    let r: Vec<(Vec<u8>, Vec<u8>)> = Vec::new();
    assert(slots_map(r@) =~= Map::<Seq<u8>, Seq<u8>>::empty());
    r
}

/// What a step is, with a function's name by its characters.
pub enum KindView {
    FunctionDefinition(Seq<char>),
    FunctionCall(FunctionCallKind),
    FunctionExit,
    Statement(bool),
    Unknown,
}

pub open spec fn kind_view(k: StepKind) -> KindView {
    match k {
        StepKind::FunctionDefinition(name) => KindView::FunctionDefinition(name@),
        StepKind::FunctionCall(c) => KindView::FunctionCall(c),
        StepKind::FunctionExit => KindView::FunctionExit,
        StepKind::Statement(r) => KindView::Statement(r),
        StepKind::Unknown => KindView::Unknown,
    }
}

/// A step of a trace as plain values.
pub struct StepView {
    pub location: SourceLocation,
    pub vars: Seq<usize>,
    pub path: Seq<char>,
    pub call_trace: Seq<usize>,
    pub kind: KindView,
    pub memory: Seq<u8>,
    pub stack: Seq<Seq<u8>>,
    pub storage: Map<Seq<u8>, Seq<u8>>,
}

pub open spec fn step_view(s: DebugStep) -> StepView {
    StepView {
        location: s.location,
        vars: s.variables_in_scope@,
        path: s.path@,
        call_trace: s.call_trace@,
        kind: kind_view(s.kind),
        memory: s.state_snapshot.memory@,
        stack: words_view(s.state_snapshot.stack@),
        storage: slots_map(s.state_snapshot.storage@),
    }
}

/// The steps as plain values.
pub open spec fn steps_view(steps: Seq<DebugStep>) -> Seq<StepView> {
    steps.map_values(|s: DebugStep| step_view(s))
}

/// What the building of a trace has made so far: the steps, the open calls
/// (the steps that called the functions being run, outermost first), whether a
/// function entry is due, where variables are, the storage of each contract,
/// and how many instructions of the current node have had their storage writes
/// applied.
pub struct BuildView {
    pub steps: Seq<StepView>,
    pub call_trace: Seq<usize>,
    pub expecting: bool,
    pub assignments: Map<u64, Assignment>,
    pub storage: Map<u64, Map<Seq<u8>, Seq<u8>>>,
    pub applied: int,
}

/// How the building of a trace ends: with the steps, with an error, or on a
/// dump that breaks what a debug dump guarantees (an instruction that the source
/// maps do not cover, a contract without debug information, a stack too short
/// for the parameters of the function entered).
pub enum Outcome {
    Done(BuildView),
    Failed(TraceError),
    Malformed,
}

/// An instruction tied to a function or statement: its position in its node, its
/// source map entry, the unit it was found in, what it points at there, and the
/// variables in scope.
pub struct MatchView {
    pub step: int,
    pub source: SourceElement,
    pub unit: int,
    pub matched: Matched,
    pub vars: Seq<usize>,
}

/// The bytecode that a node runs: the creation code of a contract being created,
/// the deployed code otherwise.
pub open spec fn code_of(unit: DebugUnit, is_create: bool) -> BytecodeMap {
    if is_create {
        unit.bytecode
    } else {
        unit.deployed_bytecode
    }
}

/// The source maps cover the instruction at `pc`.
pub open spec fn pc_ok(unit: DebugUnit, is_create: bool, pc: usize) -> bool {
    let m = code_of(unit, is_create);
    &&& m.ic_pc_map.inner@.contains_key(pc)
    &&& m.ic_pc_map.inner@[pc] < m.source_map@.len()
}

/// The source map entry of the instruction at `pc`.
pub open spec fn source_at(unit: DebugUnit, is_create: bool, pc: usize) -> SourceElement {
    let m = code_of(unit, is_create);
    m.source_map@[m.ic_pc_map.inner@[pc] as int]
}

/// What `loc` points at in the first of `units` for source file `sid` that has it.
pub open spec fn units_search(units: Seq<DebugUnit>, sid: u32, loc: SourceElement) -> Option<
    (int, Matched, Seq<usize>),
>
    decreases units.len(),
{
    if units.len() == 0 {
        None
    } else {
        match units_search(units.drop_last(), sid, loc) {
            Some(r) => Some(r),
            None => {
                let u = units.last();
                if u.source_id == sid {
                    match unit_search(u.functions@, u.state_variables@, loc) {
                        Some((m, v)) => Some((units.len() - 1, m, v)),
                        None => None,
                    }
                } else {
                    None
                }
            },
        }
    }
}

/// The instructions of a node that the source maps tie to a function or
/// statement, in order.
pub open spec fn node_matches(
    units: Seq<DebugUnit>,
    unit: DebugUnit,
    is_create: bool,
    steps: Seq<CallTraceStep>,
) -> Seq<MatchView>
    decreases steps.len(),
{
    if steps.len() == 0 {
        seq![]
    } else {
        let prev = node_matches(units, unit, is_create, steps.drop_last());
        let src = source_at(unit, is_create, steps.last().pc);
        if src.index == -1 {
            prev
        } else {
            match units_search(units, src.index as u32, src) {
                Some((u, m, v)) => prev.push(
                    MatchView { step: steps.len() - 1, source: src, unit: u, matched: m, vars: v },
                ),
                None => prev,
            }
        }
    }
}

/// The position of the first unit named `name`.
pub open spec fn unit_of(units: Seq<DebugUnit>, name: Seq<char>) -> Option<int>
    decreases units.len(),
{
    if units.len() == 0 {
        None
    } else {
        match unit_of(units.drop_last(), name) {
            Some(i) => Some(i),
            None => if units.last().contract_name@ == name {
                Some(units.len() - 1)
            } else {
                None
            },
        }
    }
}

/// Where the run of matches on one source range that goes on at `j` ends.
pub open spec fn chunk_end_from(ms: Seq<MatchView>, j: int) -> int
    decreases ms.len() - j,
{
    if j <= 0 || j >= ms.len() || !same_range(ms[j - 1].source, ms[j].source) {
        j
    } else {
        chunk_end_from(ms, j + 1)
    }
}

pub proof fn lemma_chunk_end_bounds(ms: Seq<MatchView>, j: int)
    requires
        0 < j,
    ensures
        j <= chunk_end_from(ms, j),
        j <= ms.len() ==> chunk_end_from(ms, j) <= ms.len(),
    decreases ms.len() - j,
{
    if !(j <= 0 || j >= ms.len() || !same_range(ms[j - 1].source, ms[j].source)) {
        lemma_chunk_end_bounds(ms, j + 1);
    }
}

/// Some match of the run from `s` to `e` jumps out of a function.
pub open spec fn any_jump_out(ms: Seq<MatchView>, s: int, e: int) -> bool {
    exists|k: int| s <= k < e && #[trigger] ms[k].source.jump == Jump::Out
}

/// The parameters are on the stack from position `base` on, in order.
pub open spec fn param_assignments(m: Map<u64, Assignment>, params: Seq<Variable>, base: int) -> Map<
    u64,
    Assignment,
>
    decreases params.len(),
{
    if params.len() == 0 {
        m
    } else {
        param_assignments(m, params.drop_last(), base).insert(
            params.last().id,
            Assignment::Stack((base + params.len() - 1) as usize),
        )
    }
}

/// Parameters that are the same have the same places.
proof fn lemma_param_assignments_same(m: Map<u64, Assignment>, a: Seq<Variable>, b: Seq<Variable>, base: int)
    requires
        crate::debugger::tracer::same_variables(a, b),
    ensures
        param_assignments(m, a, base) == param_assignments(m, b, base),
    decreases a.len(),
{
    if a.len() > 0 {
        assert(a[a.len() - 1].id == b[b.len() - 1].id);
        assert(crate::debugger::tracer::same_variables(a.drop_last(), b.drop_last())) by {
            assert forall|i: int| 0 <= i < a.drop_last().len() implies crate::debugger::tracer::same_variable(
                #[trigger] a.drop_last()[i],
                b.drop_last()[i],
            ) by {
                assert(crate::debugger::tracer::same_variable(a[i], b[i]));
            }
        }
        lemma_param_assignments_same(m, a.drop_last(), b.drop_last(), base);
    }
}

/// The effect of the run of matches from `s` to `e` of a node: one step for the
/// function or statement that its first match points at (none for a call
/// statement that does not call yet), with the state of the machine at its
/// first instruction.
pub open spec fn chunk_step(
    bv: BuildView,
    units: Seq<DebugUnit>,
    node: DebugNode,
    ms: Seq<MatchView>,
    s: int,
    e: int,
) -> Outcome {
    let first = ms[s];
    let last = ms[e - 1];
    let storage = apply_changes(bv.storage, node.steps@, bv.applied, first.step);
    let data = node.steps@[first.step];
    let stack = words_view(data.stack@);
    let path = units[first.unit].path@;
    let snapshot_storage = storage_get(storage, node.address);
    match first.matched {
        Matched::Function(fi) => {
            let f = units[first.unit].functions@[fi as int];
            if any_jump_out(ms, s, e) {
                if bv.call_trace.len() == 0 {
                    Outcome::Failed(TraceError::FoundFunctionExitWithoutCall)
                } else {
                    Outcome::Done(
                        BuildView {
                            steps: bv.steps.push(
                                StepView {
                                    location: f.root_block.location,
                                    vars: first.vars,
                                    path,
                                    call_trace: bv.call_trace,
                                    kind: KindView::FunctionExit,
                                    memory: data.memory@,
                                    stack,
                                    storage: snapshot_storage,
                                },
                            ),
                            call_trace: bv.call_trace.drop_last(),
                            storage,
                            applied: first.step,
                            ..bv
                        },
                    )
                }
            } else if !bv.expecting {
                Outcome::Failed(TraceError::FoundFunctionEntryWithoutCall)
            } else if stack.len() < f.parameters@.len() {
                Outcome::Malformed
            } else {
                Outcome::Done(
                    BuildView {
                        steps: bv.steps.push(
                            StepView {
                                location: f.root_block.location,
                                vars: seq![],
                                path,
                                call_trace: bv.call_trace,
                                kind: KindView::FunctionDefinition(f.name@),
                                memory: data.memory@,
                                stack,
                                storage: snapshot_storage,
                            },
                        ),
                        expecting: false,
                        assignments: param_assignments(
                            bv.assignments,
                            f.parameters@,
                            stack.len() - f.parameters@.len(),
                        ),
                        storage,
                        applied: first.step,
                        ..bv
                    },
                )
            }
        },
        Matched::Instruction(inst) => {
            let last_op = node.steps@[last.step].op;
            let is_call = inst.kind is FunctionCall;
            if is_call && !(last_op == CALL || last_op == CREATE) && last.source.jump != Jump::In {
                Outcome::Done(BuildView { storage, applied: first.step, ..bv })
            } else if inst.kind is VariableDeclaration && stack.len() < 2 {
                Outcome::Malformed
            } else {
                let kind = if is_call {
                    KindView::FunctionCall(
                        if last_op == CREATE {
                            FunctionCallKind::Create
                        } else {
                            FunctionCallKind::Call
                        },
                    )
                } else {
                    KindView::Statement(last_op == REVERT)
                };
                let assignments = match inst.kind {
                    crate::debugger::units::InstructionKind::VariableDeclaration(id) => bv.assignments.insert(
                        id as u64,
                        Assignment::Stack((stack.len() - 2) as usize),
                    ),
                    _ => bv.assignments,
                };
                Outcome::Done(
                    BuildView {
                        steps: bv.steps.push(
                            StepView {
                                location: inst.location,
                                vars: first.vars,
                                path,
                                call_trace: bv.call_trace,
                                kind,
                                memory: data.memory@,
                                stack,
                                storage: snapshot_storage,
                            },
                        ),
                        call_trace: if is_call {
                            bv.call_trace.push(bv.steps.len() as usize)
                        } else {
                            bv.call_trace
                        },
                        expecting: if is_call {
                            true
                        } else {
                            bv.expecting
                        },
                        assignments,
                        storage,
                        applied: first.step,
                    },
                )
            }
        },
    }
}

/// The effect of the runs of matches from `s` on.
pub open spec fn process_chunks(
    o: Outcome,
    units: Seq<DebugUnit>,
    node: DebugNode,
    ms: Seq<MatchView>,
    s: int,
) -> Outcome
    decreases ms.len() - s,
{
    if s < 0 || s >= ms.len() {
        o
    } else {
        match o {
            Outcome::Done(bv) => {
                let e = chunk_end_from(ms, s + 1);
                proof {
                    lemma_chunk_end_bounds(ms, s + 1);
                }
                process_chunks(chunk_step(bv, units, node, ms, s, e), units, node, ms, e)
            },
            _ => o,
        }
    }
}

/// The effect of a node: its runs of matches, then the exit of a creation or of
/// a call that reverted.
pub open spec fn node_step(o: Outcome, units: Seq<DebugUnit>, node: DebugNode) -> Outcome {
    match o {
        Outcome::Done(bv) => match unit_of(units, node.contract@) {
            None => Outcome::Malformed,
            Some(u) => {
                let unit = units[u];
                let is_create = node.kind is Create;
                if !(forall|i: int|
                    0 <= i < node.steps@.len() ==> pc_ok(unit, is_create, #[trigger] node.steps@[i].pc)) {
                    Outcome::Malformed
                } else {
                    let ms = node_matches(units, unit, is_create, node.steps@);
                    let o2 = process_chunks(
                        Outcome::Done(BuildView { applied: 0, ..bv }),
                        units,
                        node,
                        ms,
                        0,
                    );
                    match o2 {
                        Outcome::Done(b2) => {
                            let is_revert = node.steps@.len() > 0 && node.steps@.last().op == REVERT;
                            if is_create || is_revert {
                                if b2.call_trace.len() == 0 {
                                    Outcome::Failed(TraceError::FoundFunctionExitWithoutCall)
                                } else {
                                    Outcome::Done(
                                        BuildView {
                                            steps: b2.steps.push(
                                                StepView {
                                                    location: unit.location,
                                                    vars: seq![],
                                                    path: unit.path@,
                                                    call_trace: b2.call_trace,
                                                    kind: KindView::FunctionExit,
                                                    memory: seq![],
                                                    stack: seq![],
                                                    storage: Map::empty(),
                                                },
                                            ),
                                            call_trace: b2.call_trace.drop_last(),
                                            ..b2
                                        },
                                    )
                                }
                            } else {
                                o2
                            }
                        },
                        _ => o2,
                    }
                }
            },
        },
        _ => o,
    }
}

/// The effect of the nodes, in order.
pub open spec fn build_from(o: Outcome, units: Seq<DebugUnit>, nodes: Seq<DebugNode>) -> Outcome
    decreases nodes.len(),
{
    if nodes.len() == 0 {
        o
    } else {
        node_step(build_from(o, units, nodes.drop_last()), units, nodes.last())
    }
}

/// The state before the first node: one step that stands for the call of the
/// test, which the call trace holds.
pub open spec fn initial_view() -> BuildView {
    BuildView {
        steps: seq![
            StepView {
                location: SourceLocation {
                    line: 0,
                    column: 0,
                    end_line: None,
                    end_column: None,
                    start_offset: 0,
                    length: None,
                },
                vars: seq![],
                path: seq![],
                call_trace: seq![],
                kind: KindView::FunctionCall(FunctionCallKind::Call),
                memory: seq![],
                stack: seq![],
                storage: Map::empty(),
            },
        ],
        call_trace: seq![0],
        expecting: true,
        assignments: Map::empty(),
        storage: Map::empty(),
        applied: 0,
    }
}

/// How building the steps of the trace of `nodes` ends.
pub open spec fn spec_build(units: Seq<DebugUnit>, nodes: Seq<DebugNode>) -> Outcome {
    build_from(Outcome::Done(initial_view()), units, nodes)
}

/// The unit of a matched function is a function of the unit.
proof fn lemma_unit_search_index(fs: Seq<crate::debugger::units::Function>, state: Seq<usize>, loc: SourceElement)
    ensures
        unit_search(fs, state, loc) matches Some((Matched::Function(i), _)) ==> i < fs.len(),
    decreases fs.len(),
{
    if fs.len() > 0 {
        lemma_unit_search_index(fs.drop_last(), state, loc);
    }
}

proof fn lemma_units_search_prefix(units: Seq<DebugUnit>, sid: u32, loc: SourceElement, k: int)
    requires
        0 <= k <= units.len(),
        units_search(units.take(k), sid, loc) is Some,
    ensures
        units_search(units, sid, loc) == units_search(units.take(k), sid, loc),
    decreases units.len() - k,
{
    if k < units.len() {
        assert(units.take(k + 1).drop_last() =~= units.take(k));
        lemma_units_search_prefix(units, sid, loc, k + 1);
    } else {
        assert(units.take(k) =~= units);
    }
}

proof fn lemma_units_search_index(units: Seq<DebugUnit>, sid: u32, loc: SourceElement)
    ensures
        units_search(units, sid, loc) matches Some((u, _, _)) ==> 0 <= u < units.len(),
    decreases units.len(),
{
    if units.len() > 0 {
        lemma_units_search_index(units.drop_last(), sid, loc);
    }
}

/// An instruction tied to a function or statement, with what it points at.
struct MatchedStep {
    step: usize,
    source: SourceElement,
    unit: usize,
    matched: MatchResult,
    vars: Vec<usize>,
    target: Ghost<Matched>,
}

spec fn match_view(m: MatchedStep) -> MatchView {
    MatchView {
        step: m.step as int,
        source: m.source,
        unit: m.unit as int,
        matched: m.target@,
        vars: m.vars@,
    }
}

/// The match holds a copy of what it points at in the units.
spec fn match_ok(m: MatchedStep, units: Seq<DebugUnit>) -> bool {
    &&& m.unit < units.len()
    &&& match m.target@ {
        Matched::Function(fi) => fi < units[m.unit as int].functions@.len() && (
        m.matched matches MatchResult::Function(f) && same_function(
            *f,
            units[m.unit as int].functions@[fi as int],
        )),
        Matched::Instruction(inst) => m.matched == MatchResult::Instruction(inst),
    }
}

/// The position of the first unit named `name` (what the dump names a contract).
pub fn unit_index_by_name(units: &Vec<DebugUnit>, name: &str) -> (r: Option<usize>)
    ensures
        match r {
            Some(i) => unit_of(units@, name@) == Some(i as int),
            None => unit_of(units@, name@) is None,
        },
{
    let n = units.len();
    let mut i: usize = 0;
    while i < n
        invariant
            n == units@.len(),
            i <= n,
            unit_of(units@.take(i as int), name@) is None,
        decreases n - i,
    {
        assert(units@.take(i + 1).drop_last() =~= units@.take(i as int));
        if crate::text::str_eq(units[i].contract_name.as_str(), name) {
            assert(unit_of(units@.take(i + 1), name@) == Some(i as int));
            proof {
                lemma_unit_of_prefix(units@, name@, i as int + 1);
            }
            return Some(i);
        }
        i = i + 1;
    }
    assert(units@.take(n as int) =~= units@);
    None
}

proof fn lemma_unit_of_prefix(units: Seq<DebugUnit>, name: Seq<char>, k: int)
    requires
        0 <= k <= units.len(),
        unit_of(units.take(k), name) is Some,
    ensures
        unit_of(units, name) == unit_of(units.take(k), name),
    decreases units.len() - k,
{
    if k < units.len() {
        assert(units.take(k + 1).drop_last() =~= units.take(k));
        lemma_unit_of_prefix(units, name, k + 1);
    } else {
        assert(units.take(k) =~= units);
    }
}

proof fn lemma_unit_of_index(units: Seq<DebugUnit>, name: Seq<char>)
    ensures
        unit_of(units, name) matches Some(i) ==> 0 <= i < units.len(),
    decreases units.len(),
{
    if units.len() > 0 {
        lemma_unit_of_index(units.drop_last(), name);
    }
}

/// What `loc` points at in the first unit for source file `sid` that has it.
fn units_match(units: &Vec<DebugUnit>, sid: u32, loc: &SourceElement) -> (r: Option<
    (usize, MatchResult, Vec<usize>, Ghost<Matched>),
>)
    ensures
        match units_search(units@, sid, *loc) {
            Some((u, m, v)) => r matches Some((ru, rm, rv, rt)) && ru == u && rt@ == m && rv@ == v
                && match_ok(
                MatchedStep { step: 0, source: *loc, unit: ru, matched: rm, vars: rv, target: rt },
                units@,
            ),
            None => r is None,
        },
{
    let n = units.len();
    let mut i: usize = 0;
    while i < n
        invariant
            n == units@.len(),
            i <= n,
            units_search(units@.take(i as int), sid, *loc) is None,
        decreases n - i,
    {
        assert(units@.take(i + 1).drop_last() =~= units@.take(i as int));
        assert(units@.take(i + 1).last() == units@[i as int]);
        let unit = &units[i];
        if unit.source_id == sid {
            let (res, vars) = unit.match_location(loc);
            if let Some(m) = res {
                let ghost found = match unit_search(unit.functions@, unit.state_variables@, *loc) {
                    Some((mm, _)) => mm,
                    None => Matched::Function(0),
                };
                proof {
                    lemma_units_search_prefix(units@, sid, *loc, i as int + 1);
                    lemma_unit_search_index(unit.functions@, unit.state_variables@, *loc);
                }
                return Some((i, m, vars, Ghost(found)));
            }
        }
        i = i + 1;
    }
    assert(units@.take(n as int) =~= units@);
    None
}

/// The instructions of a node that the source maps tie to a function or
/// statement, in order.
fn match_node(units: &Vec<DebugUnit>, unit: &DebugUnit, is_create: bool, steps: &Vec<CallTraceStep>) -> (r:
    Vec<MatchedStep>)
    requires
        forall|i: int| 0 <= i < steps@.len() ==> pc_ok(*unit, is_create, #[trigger] steps@[i].pc),
    ensures
        r@.len() == node_matches(units@, *unit, is_create, steps@).len(),
        forall|i: int|
            0 <= i < r@.len() ==> match_view(#[trigger] r@[i]) == node_matches(
                units@,
                *unit,
                is_create,
                steps@,
            )[i] && match_ok(r@[i], units@),
{
    let mut out: Vec<MatchedStep> = Vec::new();
    let n = steps.len();
    let mut i: usize = 0;
    while i < n
        invariant
            n == steps@.len(),
            i <= n,
            forall|j: int| 0 <= j < steps@.len() ==> pc_ok(*unit, is_create, #[trigger] steps@[j].pc),
            out@.len() == node_matches(units@, *unit, is_create, steps@.take(i as int)).len(),
            forall|j: int|
                0 <= j < out@.len() ==> match_view(#[trigger] out@[j]) == node_matches(
                    units@,
                    *unit,
                    is_create,
                    steps@.take(i as int),
                )[j] && match_ok(out@[j], units@),
        decreases n - i,
    {
        let ghost prev = node_matches(units@, *unit, is_create, steps@.take(i as int));
        assert(steps@.take(i + 1).drop_last() =~= steps@.take(i as int));
        assert(steps@.take(i + 1).last() == steps@[i as int]);
        let pc = steps[i].pc;
        assert(pc_ok(*unit, is_create, steps@[i as int].pc));
        let code = if is_create {
            &unit.bytecode
        } else {
            &unit.deployed_bytecode
        };
        if let Some(ic) = code.ic_pc_map.get(pc) {
            let src = code.source_map[ic];
            assert(src == source_at(*unit, is_create, pc));
            if let Some(sid) = src.index() {
                if let Some((u, m, vars, target)) = units_match(units, sid, &src) {
                    let ghost mv = MatchView {
                        step: i as int,
                        source: src,
                        unit: u as int,
                        matched: target@,
                        vars: vars@,
                    };
                    let entry = MatchedStep { step: i, source: src, unit: u, matched: m, vars, target };
                    out.push(entry);
                    assert(node_matches(units@, *unit, is_create, steps@.take(i + 1)) == prev.push(mv));
                }
            }
        }
        i = i + 1;
    }
    assert(steps@.take(n as int) =~= steps@);
    out
}

/// The steps built so far, with the state that the next steps depend on.
struct TraceBuilder {
    steps: Vec<DebugStep>,
    call_trace: Vec<usize>,
    expecting_function: bool,
    assignments: HashMap<u64, Assignment>,
    storage: Vec<(u64, Vec<(Vec<u8>, Vec<u8>)>)>,
    applied: usize,
}

impl View for TraceBuilder {
    type V = BuildView;

    closed spec fn view(&self) -> BuildView {
        BuildView {
            steps: steps_view(self.steps@),
            call_trace: self.call_trace@,
            expecting: self.expecting_function,
            assignments: self.assignments@,
            storage: contracts_map(self.storage@),
            applied: self.applied as int,
        }
    }
}

impl TraceBuilder {
    spec fn wf(&self) -> bool {
        contracts_ok(self.storage@)
    }

    fn new() -> (r: Self)
        ensures
            r@ == initial_view(),
            r.wf(),
    {
        let first = DebugStep {
            location: SourceLocation::new(),
            variables_in_scope: Vec::new(),
            path: String::new(),
            call_trace: Vec::new(),
            kind: StepKind::FunctionCall(FunctionCallKind::Call),
            state_snapshot: StateSnapshot { memory: Vec::new(), stack: Vec::new(), storage: Vec::new() },
        };
        let mut steps: Vec<DebugStep> = Vec::new();
        steps.push(first);
        let mut call_trace: Vec<usize> = Vec::new();
        call_trace.push(0);
        let r = TraceBuilder {
            steps,
            call_trace,
            expecting_function: true,
            assignments: HashMap::new(),
            storage: Vec::new(),
            applied: 0,
        };
        proof {
            assert(words_view(Seq::<Vec<u8>>::empty()) =~= Seq::<Seq<u8>>::empty());
            assert(slots_map(Seq::<(Vec<u8>, Vec<u8>)>::empty()) =~= Map::<Seq<u8>, Seq<u8>>::empty());
            assert(contracts_map(r.storage@) =~= Map::<u64, Map<Seq<u8>, Seq<u8>>>::empty());
            assert(r.assignments@ =~= Map::<u64, Assignment>::empty());
            assert(steps_view(r.steps@) =~= initial_view().steps);
        }
        r
    }

    /// Applies the storage writes of the instructions of `node` from the ones
    /// already applied up to `to`.
    fn apply_storage(&mut self, node: &DebugNode, to: usize)
        requires
            old(self).wf(),
            to <= node.steps@.len(),
        ensures
            final(self).wf(),
            final(self)@ == (BuildView {
                storage: apply_changes(old(self)@.storage, node.steps@, old(self)@.applied, to as int),
                applied: to as int,
                ..old(self)@
            }),
    {
        let ghost from = self.applied as int;
        let ghost st = self@.storage;
        let mut i = self.applied;
        while i < to
            invariant
                contracts_ok(self.storage@),
                from <= i,
                i <= to || i == from,
                to <= node.steps@.len(),
                contracts_map(self.storage@) == apply_changes(st, node.steps@, from, i as int),
                self.steps == old(self).steps,
                self.call_trace == old(self).call_trace,
                self.expecting_function == old(self).expecting_function,
                self.assignments == old(self).assignments,
                self.applied == old(self).applied,
            decreases to - i,
        {
            if let Some(change) = &node.steps[i].storage_change {
                write_storage(
                    &mut self.storage,
                    node.steps[i].contract,
                    copy_bytes(&change.key),
                    copy_bytes(&change.value),
                );
            }
            i = i + 1;
        }
        self.applied = to;
    }
}

spec fn matches_view(ms: Seq<MatchedStep>) -> Seq<MatchView> {
    ms.map_values(|m: MatchedStep| match_view(m))
}

/// Every match of a node is at an instruction of the node.
proof fn lemma_node_matches_steps(units: Seq<DebugUnit>, unit: DebugUnit, is_create: bool, steps: Seq<CallTraceStep>)
    ensures
        forall|i: int|
            0 <= i < node_matches(units, unit, is_create, steps).len() ==> 0 <= (
            #[trigger] node_matches(units, unit, is_create, steps)[i]).step < steps.len(),
    decreases steps.len(),
{
    if steps.len() > 0 {
        lemma_node_matches_steps(units, unit, is_create, steps.drop_last());
    }
}

impl TraceBuilder {
    /// Adds the step of the run of matches from `s` to `e`.
    fn chunk(
        &mut self,
        units: &Vec<DebugUnit>,
        node: &DebugNode,
        ms: &Vec<MatchedStep>,
        s: usize,
        e: usize,
    ) -> (r: Result<(), TraceError>)
        requires
            old(self).wf(),
            s < e <= ms@.len(),
            forall|i: int| 0 <= i < ms@.len() ==> match_ok(#[trigger] ms@[i], units@),
            forall|i: int| 0 <= i < ms@.len() ==> (#[trigger] ms@[i]).step < node.steps@.len(),
        ensures
            match chunk_step(old(self)@, units@, *node, matches_view(ms@), s as int, e as int) {
                Outcome::Done(bv) => r is Ok && final(self)@ == bv && final(self).wf(),
                Outcome::Failed(err) => r == Err::<(), TraceError>(err),
                Outcome::Malformed => r == Err::<(), TraceError>(TraceError::MalformedDump),
            },
    {
        let ghost mv = matches_view(ms@);
        let ghost bv0 = self@;
        let first = &ms[s];
        let last = &ms[e - 1];
        assert(mv[s as int] == match_view(*first));
        assert(mv[e - 1] == match_view(*last));
        assert(match_ok(*first, units@));
        self.apply_storage(node, first.step);
        let data = &node.steps[first.step];
        let unit = &units[first.unit];
        let snapshot_storage = storage_of(&self.storage, node.address);
        let stack_len = data.stack.len();
        let local_call_trace = copy_ids(&self.call_trace);
        assert(words_view(data.stack@).len() == stack_len);
        match &first.matched {
            MatchResult::Function(func) => {
                let ghost fi = first.target@->Function_0;
                assert(same_function(**func, units@[first.unit as int].functions@[fi as int]));
                let mut with_out = false;
                let mut k = s;
                while k < e
                    invariant
                        s <= k <= e,
                        e <= ms@.len(),
                        mv == matches_view(ms@),
                        with_out == exists|j: int| s <= j < k && #[trigger] mv[j].source.jump == Jump::Out,
                    decreases e - k,
                {
                    assert(mv[k as int] == match_view(ms@[k as int]));
                    let ghost was = with_out;
                    if ms[k].source.jump == Jump::Out {
                        with_out = true;
                    }
                    proof {
                        if mv[k as int].source.jump == Jump::Out {
                            assert(s <= k < k + 1 && mv[k as int].source.jump == Jump::Out);
                        }
                        if was {
                            let j = choose|j: int| s <= j < k && #[trigger] mv[j].source.jump == Jump::Out;
                            assert(s <= j < k + 1);
                        }
                        assert(with_out == exists|j: int| s <= j < k + 1 && #[trigger] mv[j].source.jump
                            == Jump::Out) by {
                            if !with_out {
                                assert forall|j: int| s <= j < k + 1 implies #[trigger] mv[j].source.jump
                                    != Jump::Out by {
                                    if j == k {
                                    } else {
                                        assert(!(s <= j < k && mv[j].source.jump == Jump::Out));
                                    }
                                }
                            }
                        }
                    }
                    k = k + 1;
                }
                assert(with_out == any_jump_out(mv, s as int, e as int));
                if with_out {
                    if self.call_trace.len() == 0 {
                        return Err(TraceError::FoundFunctionExitWithoutCall);
                    }
                    self.call_trace.pop();
                    let step = DebugStep {
                        location: func.root_block.location,
                        variables_in_scope: copy_ids(&first.vars),
                        path: unit.path.clone(),
                        call_trace: local_call_trace,
                        kind: StepKind::FunctionExit,
                        state_snapshot: StateSnapshot {
                            memory: copy_bytes(&data.memory),
                            stack: copy_words(&data.stack),
                            storage: snapshot_storage,
                        },
                    };
                    let ghost before = self.steps@;
                    self.steps.push(step);
                    assert(steps_view(self.steps@) =~= steps_view(before).push(step_view(step)));
                    assert(Outcome::Done(self@) == chunk_step(bv0, units@, *node, mv, s as int, e as int));
                } else {
                    if !self.expecting_function {
                        return Err(TraceError::FoundFunctionEntryWithoutCall);
                    }
                    let num_params = func.parameters.len();
                    if stack_len < num_params {
                        return Err(TraceError::MalformedDump);
                    }
                    self.expecting_function = false;
                    let ghost base = stack_len - num_params;
                    let ghost a0 = self.assignments@;
                    let ghost pre = self@;
                    let ghost pre_steps = self.steps@;
                    let mut i: usize = 0;
                    while i < num_params
                        invariant
                            self@ == (BuildView { assignments: self@.assignments, ..pre }),
                            self.steps@ == pre_steps,
                            contracts_ok(self.storage@),
                            num_params == func.parameters@.len(),
                            num_params <= stack_len,
                            base == stack_len - num_params,
                            i <= num_params,
                            self.assignments@ == param_assignments(
                                a0,
                                func.parameters@.take(i as int),
                                base,
                            ),
                        decreases num_params - i,
                    {
                        assert(func.parameters@.take(i + 1).drop_last() =~= func.parameters@.take(
                            i as int,
                        ));
                        let stack_pos = stack_len - num_params + i;
                        self.assignments.insert(func.parameters[i].id, Assignment::Stack(stack_pos));
                        i = i + 1;
                    }
                    assert(func.parameters@.take(num_params as int) =~= func.parameters@);
                    proof {
                        lemma_param_assignments_same(
                            a0,
                            func.parameters@,
                            units@[first.unit as int].functions@[fi as int].parameters@,
                            base,
                        );
                    }
                    let step = DebugStep {
                        location: func.root_block.location,
                        variables_in_scope: Vec::new(),
                        path: unit.path.clone(),
                        call_trace: local_call_trace,
                        kind: StepKind::FunctionDefinition(func.name.clone()),
                        state_snapshot: StateSnapshot {
                            memory: copy_bytes(&data.memory),
                            stack: copy_words(&data.stack),
                            storage: snapshot_storage,
                        },
                    };
                    let ghost before = self.steps@;
                    self.steps.push(step);
                    assert(step_view(step).vars =~= Seq::<usize>::empty());
                    assert(steps_view(self.steps@) =~= steps_view(before).push(step_view(step)));
                    assert(Outcome::Done(self@) == chunk_step(bv0, units@, *node, mv, s as int, e as int));
                }
            },
            MatchResult::Instruction(inst) => {
                let inst = *inst;
                let last_op = node.steps[last.step].op;
                let is_call = matches!(inst.kind, InstructionKind::FunctionCall);
                if is_call && !is_call_op_code(last_op) && last.source.jump != Jump::In {
                    return Ok(());
                }
                if matches!(inst.kind, InstructionKind::VariableDeclaration(_)) && stack_len < 2 {
                    return Err(TraceError::MalformedDump);
                }
                let kind = if is_call {
                    if last_op == CREATE {
                        StepKind::FunctionCall(FunctionCallKind::Create)
                    } else {
                        StepKind::FunctionCall(FunctionCallKind::Call)
                    }
                } else {
                    StepKind::Statement(last_op == REVERT)
                };
                if let InstructionKind::VariableDeclaration(id) = inst.kind {
                    self.assignments.insert(id as u64, Assignment::Stack(stack_len - 2));
                }
                let step = DebugStep {
                    location: inst.location,
                    variables_in_scope: copy_ids(&first.vars),
                    path: unit.path.clone(),
                    call_trace: local_call_trace,
                    kind,
                    state_snapshot: StateSnapshot {
                        memory: copy_bytes(&data.memory),
                        stack: copy_words(&data.stack),
                        storage: snapshot_storage,
                    },
                };
                let ghost before = self.steps@;
                self.steps.push(step);
                assert(steps_view(self.steps@) =~= steps_view(before).push(step_view(step)));
                if is_call {
                    self.expecting_function = true;
                    self.call_trace.push(self.steps.len() - 1);
                }
                assert(Outcome::Done(self@) == chunk_step(bv0, units@, *node, mv, s as int, e as int));
            },
        }
        Ok(())
    }
}

/// Runs of matches after an outcome that is not `Done` leave it as it is.
proof fn lemma_process_chunks_stuck(o: Outcome, units: Seq<DebugUnit>, node: DebugNode, ms: Seq<MatchView>, s: int)
    requires
        !(o is Done),
    ensures
        process_chunks(o, units, node, ms, s) == o,
{
}

impl TraceBuilder {
    /// Adds the steps of one node of the execution.
    fn node(&mut self, units: &Vec<DebugUnit>, node: &DebugNode) -> (r: Result<(), TraceError>)
        requires
            old(self).wf(),
        ensures
            match node_step(Outcome::Done(old(self)@), units@, *node) {
                Outcome::Done(bv) => r is Ok && final(self)@ == bv && final(self).wf(),
                Outcome::Failed(err) => r == Err::<(), TraceError>(err),
                Outcome::Malformed => r == Err::<(), TraceError>(TraceError::MalformedDump),
            },
    {
        let ghost bv0 = self@;
        let ghost target = node_step(Outcome::Done(bv0), units@, *node);
        proof {
            lemma_unit_of_index(units@, node.contract@);
        }
        let name = node.contract.as_str();
        assert(name@ == node.contract@);
        let found = unit_index_by_name(units, name);
        proof {
            if unit_of(units@, node.contract@) is None {
                assert(target is Malformed);
            }
        }
        let u = match found {
            Some(u) => u,
            None => {
                return Err(TraceError::MalformedDump);
            },
        };
        assert(unit_of(units@, node.contract@) == Some(u as int));
        let unit = &units[u];
        let is_create = node.kind.is_create();
        let code = if is_create {
            &unit.bytecode
        } else {
            &unit.deployed_bytecode
        };
        let m = node.steps.len();
        let mut j: usize = 0;
        while j < m
            invariant
                m == node.steps@.len(),
                j <= m,
                code == code_of(*unit, is_create),
                forall|i: int| 0 <= i < j ==> pc_ok(*unit, is_create, #[trigger] node.steps@[i].pc),
                target == node_step(Outcome::Done(bv0), units@, *node),
                bv0 == old(self)@,
                unit_of(units@, node.contract@) == Some(u as int),
                *unit == units@[u as int],
                is_create == (node.kind is Create),
            decreases m - j,
        {
            let covered = match code.ic_pc_map.get(node.steps[j].pc) {
                Some(ic) => ic < code.source_map.len(),
                None => false,
            };
            if !covered {
                assert(!pc_ok(*unit, is_create, node.steps@[j as int].pc));
                assert(target is Malformed);
                return Err(TraceError::MalformedDump);
            }
            j = j + 1;
        }
        let ms = match_node(units, unit, is_create, &node.steps);
        let ghost mv = node_matches(units@, *unit, is_create, node.steps@);
        proof {
            assert(matches_view(ms@) =~= mv);
            lemma_node_matches_steps(units@, *unit, is_create, node.steps@);
        }
        self.applied = 0;
        let ghost o2 = process_chunks(
            Outcome::Done(BuildView { applied: 0, ..bv0 }),
            units@,
            *node,
            mv,
            0,
        );
        let n = ms.len();
        let mut s: usize = 0;
        while s < n
            invariant
                n == ms@.len(),
                mv == matches_view(ms@),
                s <= n,
                self.wf(),
                process_chunks(Outcome::Done(self@), units@, *node, mv, s as int) == o2,
                forall|i: int| 0 <= i < ms@.len() ==> match_ok(#[trigger] ms@[i], units@),
                forall|i: int| 0 <= i < ms@.len() ==> (#[trigger] ms@[i]).step < node.steps@.len(),
                !(o2 is Done) ==> target == o2,
                target == node_step(Outcome::Done(old(self)@), units@, *node),
            decreases n - s,
        {
            let mut e = s + 1;
            while e < n && source_element_matches(&ms[e - 1].source, &ms[e].source)
                invariant
                    n == ms@.len(),
                    mv == matches_view(ms@),
                    s < e <= n,
                    chunk_end_from(mv, e as int) == chunk_end_from(mv, s as int + 1),
                decreases n - e,
            {
                assert(mv[e as int] == match_view(ms@[e as int]));
                assert(mv[e - 1] == match_view(ms@[e - 1]));
                e = e + 1;
            }
            proof {
                if e < n {
                    assert(mv[e as int] == match_view(ms@[e as int]));
                    assert(mv[e - 1] == match_view(ms@[e - 1]));
                }
                assert(chunk_end_from(mv, e as int) == e);
                lemma_chunk_end_bounds(mv, s as int + 1);
                let c = chunk_step(self@, units@, *node, mv, s as int, e as int);
                assert(process_chunks(Outcome::Done(self@), units@, *node, mv, s as int) == process_chunks(
                    c,
                    units@,
                    *node,
                    mv,
                    e as int,
                ));
                if c is Malformed {
                    lemma_process_chunks_stuck(c, units@, *node, mv, e as int);
                }
            }
            let ghost c = chunk_step(self@, units@, *node, mv, s as int, e as int);
            match self.chunk(units, node, &ms, s, e) {
                Ok(()) => {},
                Err(err) => {
                    proof {
                        lemma_process_chunks_stuck(c, units@, *node, mv, e as int);
                        assert(c == Outcome::Failed(err) || (c is Malformed && err == TraceError::MalformedDump));
                        assert(o2 == c);
                        assert(target == o2);
                    }
                    return Err(err);
                },
            }
            s = e;
        }
        proof {
            assert(process_chunks(Outcome::Done(self@), units@, *node, mv, n as int) == Outcome::Done(
                self@,
            ));
        }
        let len = node.steps.len();
        let is_revert = len > 0 && node.steps[len - 1].op == REVERT;
        if is_create || is_revert {
            if self.call_trace.len() == 0 {
                return Err(TraceError::FoundFunctionExitWithoutCall);
            }
            let local_call_trace = copy_ids(&self.call_trace);
            self.call_trace.pop();
            let step = DebugStep {
                location: unit.location,
                variables_in_scope: Vec::new(),
                path: unit.path.clone(),
                call_trace: local_call_trace,
                kind: StepKind::FunctionExit,
                state_snapshot: StateSnapshot { memory: Vec::new(), stack: Vec::new(), storage: Vec::new() },
            };
            let ghost before = self.steps@;
            self.steps.push(step);
            proof {
                assert(step_view(step).vars =~= Seq::<usize>::empty());
                assert(step_view(step).memory =~= Seq::<u8>::empty());
                assert(step_view(step).stack =~= Seq::<Seq<u8>>::empty());
                assert(step_view(step).storage =~= Map::<Seq<u8>, Seq<u8>>::empty());
                assert(steps_view(self.steps@) =~= steps_view(before).push(step_view(step)));
            }
        }
        Ok(())
    }
}

proof fn lemma_build_from_stuck(o: Outcome, units: Seq<DebugUnit>, nodes: Seq<DebugNode>)
    requires
        !(o is Done),
    ensures
        build_from(o, units, nodes) == o,
    decreases nodes.len(),
{
    if nodes.len() > 0 {
        lemma_build_from_stuck(o, units, nodes.drop_last());
    }
}

/// Building from the state after the first `k` nodes on the rest gives what
/// building on all of them gives.
proof fn lemma_build_from_split(o: Outcome, units: Seq<DebugUnit>, nodes: Seq<DebugNode>, k: int)
    requires
        0 <= k <= nodes.len(),
    ensures
        build_from(o, units, nodes) == build_from(build_from(o, units, nodes.take(k)), units, nodes.skip(k)),
    decreases nodes.len(),
{
    if nodes.len() == k {
        assert(nodes.take(k) =~= nodes);
        assert(nodes.skip(k) =~= Seq::<DebugNode>::empty());
    } else {
        lemma_build_from_split(o, units, nodes.drop_last(), k);
        assert(nodes.drop_last().take(k) =~= nodes.take(k));
        assert(nodes.skip(k).drop_last() =~= nodes.drop_last().skip(k));
        assert(nodes.skip(k).last() == nodes.last());
    }
}

/// The steps of the trace of the execution `nodes`, as `generate_steps` builds
/// them; `MalformedDump` where the dump breaks what a debug dump guarantees.
pub fn generate_steps_checked(units: &Vec<DebugUnit>, nodes: &Vec<DebugNode>) -> (r: Result<
    (Vec<DebugStep>, HashMap<u64, Assignment>),
    TraceError,
>)
    ensures
        match spec_build(units@, nodes@) {
            Outcome::Done(bv) => r matches Ok((steps, assignments)) && steps_view(steps@) == bv.steps
                && assignments@ == bv.assignments,
            Outcome::Failed(err) => r == Err::<(Vec<DebugStep>, HashMap<u64, Assignment>), TraceError>(
                err,
            ),
            Outcome::Malformed => r == Err::<(Vec<DebugStep>, HashMap<u64, Assignment>), TraceError>(
                TraceError::MalformedDump,
            ),
        },
{
    let mut builder = TraceBuilder::new();
    let ghost start = Outcome::Done(initial_view());
    let n = nodes.len();
    let mut i: usize = 0;
    while i < n
        invariant
            n == nodes@.len(),
            i <= n,
            builder.wf(),
            build_from(start, units@, nodes@.take(i as int)) == Outcome::Done(builder@),
            spec_build(units@, nodes@) == build_from(start, units@, nodes@),
        decreases n - i,
    {
        let ghost o_next = node_step(Outcome::Done(builder@), units@, nodes@[i as int]);
        proof {
            assert(nodes@.take(i + 1).drop_last() =~= nodes@.take(i as int));
            assert(nodes@.take(i + 1).last() == nodes@[i as int]);
            assert(build_from(start, units@, nodes@.take(i + 1)) == o_next);
            lemma_build_from_split(start, units@, nodes@, i + 1);
            if !(o_next is Done) {
                lemma_build_from_stuck(o_next, units@, nodes@.skip(i + 1));
            }
        }
        match builder.node(units, &nodes[i]) {
            Ok(()) => {},
            Err(err) => {
                return Err(err);
            },
        }
        i = i + 1;
    }
    assert(nodes@.take(n as int) =~= nodes@);
    Ok((builder.steps, builder.assignments))
}

/// The steps of the trace of the execution `nodes`, and where the parameters and
/// local variables are on the stack; the units hold the debug information of
/// the contracts that the source maps point into.
pub fn generate_steps(units: &Vec<DebugUnit>, nodes: &Vec<DebugNode>) -> (r: Result<
    (Vec<DebugStep>, HashMap<u64, Assignment>),
    TraceError,
>)
    requires
        !(spec_build(units@, nodes@) is Malformed),
    ensures
        match spec_build(units@, nodes@) {
            Outcome::Done(bv) => r matches Ok((steps, assignments)) && steps_view(steps@) == bv.steps
                && assignments@ == bv.assignments,
            Outcome::Failed(err) => r == Err::<(Vec<DebugStep>, HashMap<u64, Assignment>), TraceError>(
                err,
            ),
            Outcome::Malformed => true,
        },
{
    generate_steps_checked(units, nodes)
}

/// Every call trace of the build points at earlier steps that call a function:
/// those of the steps, and the open calls.
pub open spec fn calls_valid(bv: BuildView) -> bool {
    &&& bv.steps.len() > 0
    &&& forall|i: int, k: int|
        0 <= i < bv.steps.len() && 0 <= k < bv.steps[i].call_trace.len() ==> {
            &&& #[trigger] bv.steps[i].call_trace[k] < i
            &&& bv.steps[bv.steps[i].call_trace[k] as int].kind is FunctionCall
        }
    &&& forall|k: int|
        0 <= k < bv.call_trace.len() ==> {
            &&& #[trigger] bv.call_trace[k] < bv.steps.len()
            &&& bv.steps[bv.call_trace[k] as int].kind is FunctionCall
        }
}

proof fn lemma_chunk_step_calls(
    bv: BuildView,
    units: Seq<DebugUnit>,
    node: DebugNode,
    ms: Seq<MatchView>,
    s: int,
    e: int,
)
    requires
        calls_valid(bv),
        bv.steps.len() <= usize::MAX,
    ensures
        chunk_step(bv, units, node, ms, s, e) matches Outcome::Done(b2) ==> calls_valid(b2),
{
    if let Outcome::Done(b2) = chunk_step(bv, units, node, ms, s, e) {
        let n = bv.steps.len();
        assert forall|i: int, k: int|
            0 <= i < b2.steps.len() && 0 <= k < b2.steps[i].call_trace.len() implies {
                &&& #[trigger] b2.steps[i].call_trace[k] < i
                &&& b2.steps[b2.steps[i].call_trace[k] as int].kind is FunctionCall
            } by {
            if i < n {
                assert(b2.steps[i] == bv.steps[i]);
                assert(b2.steps[bv.steps[i].call_trace[k] as int] == bv.steps[bv.steps[i].call_trace[k] as int]);
            } else {
                assert(b2.steps[i].call_trace == bv.call_trace);
                assert(b2.steps[bv.call_trace[k] as int] == bv.steps[bv.call_trace[k] as int]);
            }
        }
        assert forall|k: int| 0 <= k < b2.call_trace.len() implies {
            &&& #[trigger] b2.call_trace[k] < b2.steps.len()
            &&& b2.steps[b2.call_trace[k] as int].kind is FunctionCall
        } by {
            match ms[s].matched {
                Matched::Function(_) => {
                    assert(b2.call_trace[k] == bv.call_trace[k]);
                    assert(b2.steps[bv.call_trace[k] as int] == bv.steps[bv.call_trace[k] as int]);
                },
                Matched::Instruction(inst) => {
                    if k < bv.call_trace.len() {
                        assert(b2.call_trace[k] == bv.call_trace[k]);
                        assert(b2.steps[bv.call_trace[k] as int] == bv.steps[bv.call_trace[k] as int]);
                    } else {
                        assert(b2.call_trace[k] == bv.steps.len());
                        assert(b2.steps[bv.steps.len() as int].kind is FunctionCall);
                    }
                },
            }
        }
    }
}

/// A run of matches adds steps and takes none away.
proof fn lemma_chunk_step_grows(bv: BuildView, units: Seq<DebugUnit>, node: DebugNode, ms: Seq<MatchView>, s: int, e: int)
    ensures
        chunk_step(bv, units, node, ms, s, e) matches Outcome::Done(b2) ==> b2.steps.len() >= bv.steps.len()
            && (bv.steps.len() > 0 ==> b2.steps[0] == bv.steps[0]),
{
}

proof fn lemma_process_chunks_grows(o: Outcome, units: Seq<DebugUnit>, node: DebugNode, ms: Seq<MatchView>, s: int)
    ensures
        o matches Outcome::Done(bv) ==> (process_chunks(o, units, node, ms, s) matches Outcome::Done(b2)
            ==> b2.steps.len() >= bv.steps.len() && (bv.steps.len() > 0 ==> b2.steps[0] == bv.steps[0])),
    decreases ms.len() - s,
{
    if !(s < 0 || s >= ms.len()) {
        if let Outcome::Done(bv) = o {
            let e = chunk_end_from(ms, s + 1);
            lemma_chunk_end_bounds(ms, s + 1);
            lemma_chunk_step_grows(bv, units, node, ms, s, e);
            lemma_process_chunks_grows(chunk_step(bv, units, node, ms, s, e), units, node, ms, e);
        }
    }
}

proof fn lemma_process_chunks_calls(o: Outcome, units: Seq<DebugUnit>, node: DebugNode, ms: Seq<MatchView>, s: int)
    requires
        process_chunks(o, units, node, ms, s) matches Outcome::Done(b2) ==> b2.steps.len() <= usize::MAX
            && (o matches Outcome::Done(bv) ==> calls_valid(bv)),
    ensures
        process_chunks(o, units, node, ms, s) matches Outcome::Done(b2) ==> calls_valid(b2),
    decreases ms.len() - s,
{
    if process_chunks(o, units, node, ms, s) is Done && !(s < 0 || s >= ms.len()) {
        if let Outcome::Done(bv) = o {
            let e = chunk_end_from(ms, s + 1);
            lemma_chunk_end_bounds(ms, s + 1);
            let c = chunk_step(bv, units, node, ms, s, e);
            if !(c is Done) {
                lemma_process_chunks_stuck(c, units, node, ms, e);
            }
            lemma_process_chunks_grows(c, units, node, ms, e);
            lemma_chunk_step_grows(bv, units, node, ms, s, e);
            lemma_chunk_step_calls(bv, units, node, ms, s, e);
            lemma_process_chunks_calls(c, units, node, ms, e);
        }
    }
}

proof fn lemma_node_step_grows(o: Outcome, units: Seq<DebugUnit>, node: DebugNode)
    ensures
        o matches Outcome::Done(bv) ==> (node_step(o, units, node) matches Outcome::Done(b2)
            ==> b2.steps.len() >= bv.steps.len() && (bv.steps.len() > 0 ==> b2.steps[0] == bv.steps[0])),
{
    if let Outcome::Done(bv) = o {
        if let Some(u) = unit_of(units, node.contract@) {
            let unit = units[u];
            let is_create = node.kind is Create;
            let ms = node_matches(units, unit, is_create, node.steps@);
            let start = Outcome::Done(BuildView { applied: 0, ..bv });
            lemma_process_chunks_grows(start, units, node, ms, 0);
        }
    }
}

proof fn lemma_build_from_grows(o: Outcome, units: Seq<DebugUnit>, nodes: Seq<DebugNode>)
    ensures
        o matches Outcome::Done(bv) ==> (build_from(o, units, nodes) matches Outcome::Done(b2)
            ==> b2.steps.len() >= bv.steps.len() && (bv.steps.len() > 0 ==> b2.steps[0] == bv.steps[0])),
    decreases nodes.len(),
{
    if nodes.len() > 0 {
        let prev = build_from(o, units, nodes.drop_last());
        lemma_build_from_grows(o, units, nodes.drop_last());
        lemma_node_step_grows(prev, units, nodes.last());
        if !(prev is Done) {
            assert(node_step(prev, units, nodes.last()) == prev);
        }
    }
}

proof fn lemma_node_step_calls(o: Outcome, units: Seq<DebugUnit>, node: DebugNode)
    requires
        node_step(o, units, node) matches Outcome::Done(b3) ==> b3.steps.len() <= usize::MAX && (
        o matches Outcome::Done(bv) ==> calls_valid(bv)),
    ensures
        node_step(o, units, node) matches Outcome::Done(b3) ==> calls_valid(b3),
{
    if let Outcome::Done(b3) = node_step(o, units, node) {
        if let Outcome::Done(bv) = o {
            if let Some(u) = unit_of(units, node.contract@) {
                let unit = units[u];
                let is_create = node.kind is Create;
                let ms = node_matches(units, unit, is_create, node.steps@);
                let start = Outcome::Done(BuildView { applied: 0, ..bv });
                let o2 = process_chunks(start, units, node, ms, 0);
                if let Outcome::Done(b2) = o2 {
                    assert(b3.steps.len() >= b2.steps.len());
                    lemma_process_chunks_calls(start, units, node, ms, 0);
                    if b3 != b2 {
                        let n = b2.steps.len();
                        assert forall|i: int, k: int|
                            0 <= i < b3.steps.len() && 0 <= k < b3.steps[i].call_trace.len() implies {
                                &&& #[trigger] b3.steps[i].call_trace[k] < i
                                &&& b3.steps[b3.steps[i].call_trace[k] as int].kind is FunctionCall
                            } by {
                            if i < n {
                                assert(b3.steps[i] == b2.steps[i]);
                                assert(b3.steps[b2.steps[i].call_trace[k] as int]
                                    == b2.steps[b2.steps[i].call_trace[k] as int]);
                            } else {
                                assert(b3.steps[i].call_trace == b2.call_trace);
                                assert(b3.steps[b2.call_trace[k] as int] == b2.steps[b2.call_trace[k] as int]);
                            }
                        }
                        assert forall|k: int| 0 <= k < b3.call_trace.len() implies {
                            &&& #[trigger] b3.call_trace[k] < b3.steps.len()
                            &&& b3.steps[b3.call_trace[k] as int].kind is FunctionCall
                        } by {
                            assert(b3.call_trace[k] == b2.call_trace[k]);
                            assert(b3.steps[b2.call_trace[k] as int] == b2.steps[b2.call_trace[k] as int]);
                        }
                    }
                } else {
                    lemma_process_chunks_stuck(o2, units, node, ms, 0);
                }
            }
        }
    }
}

proof fn lemma_build_from_calls(o: Outcome, units: Seq<DebugUnit>, nodes: Seq<DebugNode>)
    requires
        build_from(o, units, nodes) matches Outcome::Done(b2) ==> b2.steps.len() <= usize::MAX && (
        o matches Outcome::Done(bv) ==> calls_valid(bv)),
    ensures
        build_from(o, units, nodes) matches Outcome::Done(b2) ==> calls_valid(b2),
    decreases nodes.len(),
{
    if build_from(o, units, nodes) is Done && nodes.len() > 0 {
        let prev = build_from(o, units, nodes.drop_last());
        if !(prev is Done) {
            assert(node_step(prev, units, nodes.last()) == prev);
        }
        lemma_node_step_grows(prev, units, nodes.last());
        lemma_build_from_calls(o, units, nodes.drop_last());
        lemma_node_step_calls(prev, units, nodes.last());
    }
}

/// The steps of a trace that was built point in their call traces only at
/// earlier steps that call a function, so the debugger can walk up the calls
/// from every step.
pub proof fn law_built_call_traces_point_at_calls(units: Seq<DebugUnit>, nodes: Seq<DebugNode>)
    requires
        spec_build(units, nodes) is Done,
        spec_build(units, nodes)->Done_0.steps.len() <= usize::MAX,
    ensures
        ({
            let steps = spec_build(units, nodes)->Done_0.steps;
            &&& steps.len() > 0
            &&& forall|i: int, k: int|
                0 <= i < steps.len() && 0 <= k < steps[i].call_trace.len() ==> {
                    &&& #[trigger] steps[i].call_trace[k] < i
                    &&& steps[steps[i].call_trace[k] as int].kind is FunctionCall
                }
        }),
{
    let bv = initial_view();
    assert(calls_valid(bv)) by {
        assert(bv.steps[0].kind is FunctionCall);
    }
    lemma_build_from_calls(Outcome::Done(bv), units, nodes);
}

/// The first step of a trace that was built is the call of the test itself:
/// a call, at the start of no file, with an empty call trace and no variables.
pub proof fn law_first_step_is_the_test_call(units: Seq<DebugUnit>, nodes: Seq<DebugNode>)
    requires
        spec_build(units, nodes) is Done,
    ensures
        ({
            let steps = spec_build(units, nodes)->Done_0.steps;
            &&& steps.len() > 0
            &&& steps[0] == initial_view().steps[0]
            &&& steps[0].kind == KindView::FunctionCall(FunctionCallKind::Call)
            &&& steps[0].call_trace.len() == 0
            &&& steps[0].vars.len() == 0
        }),
{
    lemma_build_from_grows(Outcome::Done(initial_view()), units, nodes);
}


/// A node that creates a contract (its constructor has no exit of its own) or
/// that reverts closes the call it ran in: the last step it adds is a function
/// exit at the place of the contract, made while a call was open, and the open
/// calls after the node are those of that exit step without the innermost one.
pub proof fn law_creation_and_revert_close_their_call(bv: BuildView, units: Seq<DebugUnit>, node: DebugNode)
    requires
        node.kind is Create || (node.steps@.len() > 0 && node.steps@.last().op == REVERT),
        node_step(Outcome::Done(bv), units, node) is Done,
    ensures
        ({
            let b3 = node_step(Outcome::Done(bv), units, node)->Done_0;
            let exit = b3.steps.last();
            &&& unit_of(units, node.contract@) is Some
            &&& b3.steps.len() > bv.steps.len()
            &&& exit.kind == KindView::FunctionExit
            &&& exit.location == units[unit_of(units, node.contract@)->0].location
            &&& exit.call_trace.len() > 0
            &&& b3.call_trace == exit.call_trace.drop_last()
        }),
{
    let u = unit_of(units, node.contract@)->0;
    let unit = units[u];
    let is_create = node.kind is Create;
    let ms = node_matches(units, unit, is_create, node.steps@);
    let start = Outcome::Done(BuildView { applied: 0, ..bv });
    lemma_process_chunks_grows(start, units, node, ms, 0);
    let o2 = process_chunks(start, units, node, ms, 0);
    if let Outcome::Done(b2) = o2 {
        let b3 = node_step(Outcome::Done(bv), units, node)->Done_0;
        assert(b3.steps == b2.steps.push(b3.steps.last()));
    }
}

/// No step that enters a function has variables in scope.
pub open spec fn entries_without_variables(steps: Seq<StepView>) -> bool {
    forall|i: int|
        0 <= i < steps.len() && (#[trigger] steps[i]).kind is FunctionDefinition ==> steps[i].vars.len() == 0
}

proof fn lemma_chunk_step_entries(bv: BuildView, units: Seq<DebugUnit>, node: DebugNode, ms: Seq<MatchView>, s: int, e: int)
    ensures
        chunk_step(bv, units, node, ms, s, e) matches Outcome::Done(b2) ==> (entries_without_variables(bv.steps)
            ==> entries_without_variables(b2.steps)),
{
    if let Outcome::Done(b2) = chunk_step(bv, units, node, ms, s, e) {
        if entries_without_variables(bv.steps) && b2.steps != bv.steps {
            assert(b2.steps.len() == bv.steps.len() + 1);
            assert forall|i: int|
                0 <= i < b2.steps.len() && (#[trigger] b2.steps[i]).kind is FunctionDefinition implies b2.steps[i].vars.len()
                == 0 by {
                if i < bv.steps.len() {
                    assert(b2.steps[i] == bv.steps[i]);
                }
            }
        }
    }
}

proof fn lemma_process_chunks_entries(o: Outcome, units: Seq<DebugUnit>, node: DebugNode, ms: Seq<MatchView>, s: int)
    ensures
        o matches Outcome::Done(bv) ==> (process_chunks(o, units, node, ms, s) matches Outcome::Done(b2)
            ==> (entries_without_variables(bv.steps) ==> entries_without_variables(b2.steps))),
    decreases ms.len() - s,
{
    if !(s < 0 || s >= ms.len()) {
        if let Outcome::Done(bv) = o {
            let e = chunk_end_from(ms, s + 1);
            lemma_chunk_end_bounds(ms, s + 1);
            lemma_chunk_step_entries(bv, units, node, ms, s, e);
            let c = chunk_step(bv, units, node, ms, s, e);
            if !(c is Done) {
                lemma_process_chunks_stuck(c, units, node, ms, e);
            }
            lemma_process_chunks_entries(c, units, node, ms, e);
        }
    }
}

proof fn lemma_node_step_entries(o: Outcome, units: Seq<DebugUnit>, node: DebugNode)
    ensures
        o matches Outcome::Done(bv) ==> (node_step(o, units, node) matches Outcome::Done(b3) ==> (
        entries_without_variables(bv.steps) ==> entries_without_variables(b3.steps))),
{
    if let Outcome::Done(bv) = o {
        if let Some(u) = unit_of(units, node.contract@) {
            let unit = units[u];
            let is_create = node.kind is Create;
            let ms = node_matches(units, unit, is_create, node.steps@);
            let start = Outcome::Done(BuildView { applied: 0, ..bv });
            lemma_process_chunks_entries(start, units, node, ms, 0);
            let o2 = process_chunks(start, units, node, ms, 0);
            if let Outcome::Done(b2) = o2 {
                if let Outcome::Done(b3) = node_step(o, units, node) {
                    if entries_without_variables(bv.steps) && b3.steps != b2.steps {
                        assert forall|i: int|
                            0 <= i < b3.steps.len() && (#[trigger] b3.steps[i]).kind is FunctionDefinition implies b3.steps[i].vars.len()
                            == 0 by {
                            if i < b2.steps.len() {
                                assert(b3.steps[i] == b2.steps[i]);
                            }
                        }
                    }
                }
            } else {
                lemma_process_chunks_stuck(o2, units, node, ms, 0);
            }
        }
    }
}

proof fn lemma_build_from_entries(o: Outcome, units: Seq<DebugUnit>, nodes: Seq<DebugNode>)
    ensures
        o matches Outcome::Done(bv) ==> (build_from(o, units, nodes) matches Outcome::Done(b2) ==> (
        entries_without_variables(bv.steps) ==> entries_without_variables(b2.steps))),
    decreases nodes.len(),
{
    if nodes.len() > 0 {
        let prev = build_from(o, units, nodes.drop_last());
        lemma_build_from_entries(o, units, nodes.drop_last());
        lemma_node_step_entries(prev, units, nodes.last());
        if !(prev is Done) {
            assert(node_step(prev, units, nodes.last()) == prev);
        }
    }
}

/// In a trace that was built, no step that enters a function has variables in
/// scope: they come into scope with the statements that follow.
pub proof fn law_function_entries_have_no_variables(units: Seq<DebugUnit>, nodes: Seq<DebugNode>)
    requires
        spec_build(units, nodes) is Done,
    ensures
        entries_without_variables(spec_build(units, nodes)->Done_0.steps),
{
    let bv = initial_view();
    assert(entries_without_variables(bv.steps)) by {
        assert(bv.steps[0].kind is FunctionCall);
    }
    lemma_build_from_entries(Outcome::Done(bv), units, nodes);
}


/// `m` with each of the variables `vs` put under its id, in order.
pub open spec fn with_variables(m: Map<u64, Variable>, vs: Seq<Variable>) -> Map<u64, Variable>
    decreases vs.len(),
{
    if vs.len() == 0 {
        m
    } else {
        with_variables(m, vs.drop_last()).insert(vs.last().id, vs.last())
    }
}

/// `m` with each of the state variables `ids` put under its id, as `known`
/// holds it, in order.
pub open spec fn with_state_variables(m: Map<u64, Variable>, ids: Seq<usize>, known: Map<usize, Variable>) -> Map<
    u64,
    Variable,
>
    decreases ids.len(),
{
    if ids.len() == 0 {
        m
    } else {
        with_state_variables(m, ids.drop_last(), known).insert(ids.last() as u64, known[ids.last()])
    }
}

/// The variable definitions of the units `units`, in order: each unit's
/// variables, then its state variables as `known` holds them; a later
/// definition of an id replaces an earlier one.
pub open spec fn definitions(units: Seq<DebugUnit>, known: Map<usize, Variable>) -> Map<u64, Variable>
    decreases units.len(),
{
    if units.len() == 0 {
        Map::empty()
    } else {
        let u = units.last();
        with_state_variables(
            with_variables(definitions(units.drop_last(), known), u.variables@),
            u.state_variables@,
            known,
        )
    }
}

/// The state variables of every unit are known.
pub open spec fn state_variables_known(units: Seq<DebugUnit>, known: Map<usize, Variable>) -> bool {
    forall|i: int, j: int|
        0 <= i < units.len() && 0 <= j < units[i].state_variables@.len() ==> known.contains_key(
            #[trigger] units[i].state_variables@[j],
        )
}

/// The two maps have the same keys, and under each key the same variable.
pub open spec fn same_definitions(a: Map<u64, Variable>, b: Map<u64, Variable>) -> bool {
    &&& a.dom() == b.dom()
    &&& forall|k: u64| #[trigger] a.contains_key(k) ==> same_variable(a[k], b[k])
}

proof fn lemma_same_definitions_insert(a: Map<u64, Variable>, b: Map<u64, Variable>, k: u64, x: Variable, y: Variable)
    requires
        same_definitions(a, b),
        same_variable(x, y),
    ensures
        same_definitions(a.insert(k, x), b.insert(k, y)),
{
    assert(a.insert(k, x).dom() =~= b.insert(k, y).dom());
}

/// Puts the variables and state variables of `u` into `defs`.
fn add_unit_definitions(
    defs: &mut HashMap<u64, Variable>,
    u: &DebugUnit,
    context: &TraceContext,
    Ghost(spec): Ghost<Map<u64, Variable>>,
)
    requires
        same_definitions(old(defs)@, spec),
        forall|j: int| 0 <= j < u.state_variables@.len() ==> context.state_variables@.contains_key(
            #[trigger] u.state_variables@[j],
        ),
    ensures
        same_definitions(
            final(defs)@,
            with_state_variables(with_variables(spec, u.variables@), u.state_variables@, context.state_variables@),
        ),
{
    let n = u.variables.len();
    let mut i: usize = 0;
    while i < n
        invariant
            n == u.variables@.len(),
            i <= n,
            same_definitions(defs@, with_variables(spec, u.variables@.take(i as int))),
        decreases n - i,
    {
        let v = &u.variables[i];
        assert(u.variables@.take(i + 1).drop_last() =~= u.variables@.take(i as int));
        let copy = clone_variable(v);
        proof {
            lemma_same_definitions_insert(
                defs@,
                with_variables(spec, u.variables@.take(i as int)),
                v.id,
                copy,
                *v,
            );
        }
        defs.insert(v.id, copy);
        i = i + 1;
    }
    assert(u.variables@.take(n as int) =~= u.variables@);
    let ghost mid = with_variables(spec, u.variables@);
    let m = u.state_variables.len();
    let mut j: usize = 0;
    while j < m
        invariant
            m == u.state_variables@.len(),
            j <= m,
            forall|k: int| 0 <= k < u.state_variables@.len() ==> context.state_variables@.contains_key(
                #[trigger] u.state_variables@[k],
            ),
            same_definitions(
                defs@,
                with_state_variables(mid, u.state_variables@.take(j as int), context.state_variables@),
            ),
        decreases m - j,
    {
        let id = u.state_variables[j];
        assert(u.state_variables@.take(j + 1).drop_last() =~= u.state_variables@.take(j as int));
        assert(context.state_variables@.contains_key(u.state_variables@[j as int]));
        match context.state_variables.get(&id) {
            Some(var) => {
                let copy = clone_variable(var);
                proof {
                    lemma_same_definitions_insert(
                        defs@,
                        with_state_variables(mid, u.state_variables@.take(j as int), context.state_variables@),
                        id as u64,
                        copy,
                        *var,
                    );
                }
                defs.insert(id as u64, copy);
            },
            None => {
                assert(false);
            },
        }
        j = j + 1;
    }
    assert(u.state_variables@.take(m as int) =~= u.state_variables@);
}

/// The variable definitions of the units: each unit's variables, then its state
/// variables as `context` holds them, unit by unit; a later definition of an id
/// replaces an earlier one.
pub fn variable_definitions(units: &Vec<DebugUnit>, context: &TraceContext) -> (r: HashMap<u64, Variable>)
    requires
        state_variables_known(units@, context.state_variables@),
    ensures
        same_definitions(r@, definitions(units@, context.state_variables@)),
{
    let mut defs: HashMap<u64, Variable> = HashMap::new();
    let n = units.len();
    let mut i: usize = 0;
    assert(defs@ =~= Map::<u64, Variable>::empty());
    assert(units@.take(0) =~= Seq::<DebugUnit>::empty());
    while i < n
        invariant
            n == units@.len(),
            i <= n,
            state_variables_known(units@, context.state_variables@),
            same_definitions(defs@, definitions(units@.take(i as int), context.state_variables@)),
        decreases n - i,
    {
        assert(units@.take(i + 1).drop_last() =~= units@.take(i as int));
        assert(units@.take(i + 1).last() == units@[i as int]);
        let u = &units[i];
        assert forall|j: int| 0 <= j < u.state_variables@.len() implies context.state_variables@.contains_key(
            #[trigger] u.state_variables@[j],
        ) by {
            assert(units@[i as int].state_variables@[j] == u.state_variables@[j]);
        }
        add_unit_definitions(
            &mut defs,
            u,
            context,
            Ghost(definitions(units@.take(i as int), context.state_variables@)),
        );
        i = i + 1;
    }
    assert(units@.take(n as int) =~= units@);
    defs
}

/// The phases of building a trace, in the order they are recorded.
pub open spec fn trace_phases() -> Seq<Action> {
    seq![
        Action::GenerateDebugUnits,
        Action::PrepareDebugUnits,
        Action::GenerateSteps,
        Action::GenerateVariableDefinitions,
    ]
}

/// The actions of the recorded phases `m`, in order.
pub open spec fn actions_of(m: Seq<(Action, std::time::Duration)>) -> Seq<Action> {
    m.map_values(|x: (Action, std::time::Duration)| x.0)
}

/// The trace of the execution `nodes`: its steps and where the variables are
/// (as `generate_steps` builds them), the variable definitions of the units
/// (as `variable_definitions` gathers them), and the time of each phase. The
/// units hold the debug information of the contracts, and `context` the state
/// variables they name. `recorder` was started before the caller generated the
/// context and the units, so that the first phase measures that work; the
/// phases are recorded after whatever it already holds.
pub fn build_trace(
    units: &Vec<DebugUnit>,
    nodes: &Vec<DebugNode>,
    context: &TraceContext,
    recorder: MetricsRecorder,
) -> (r: Result<
    DebugTrace,
    TraceError,
>)
    requires
        !(spec_build(units@, nodes@) is Malformed),
        state_variables_known(units@, context.state_variables@),
    ensures
        match spec_build(units@, nodes@) {
            Outcome::Done(bv) => r matches Ok(t) && steps_view(t.steps@) == bv.steps && t.assignments@
                == bv.assignments && same_definitions(t.variables@, definitions(units@, context.state_variables@))
                && actions_of(t.metrics@) == actions_of(recorder@) + trace_phases(),
            Outcome::Failed(err) => r matches Err(e) && e == err,
            Outcome::Malformed => true,
        },
{
    build_trace_checked(units, nodes, context, recorder)
}


/// Why no debug unit of a contract name was found.
#[derive(Clone, Copy, Debug, PartialEq, Eq, Structural)]
pub enum UnitLookupError {
    /// the dump lists no artifact of that name
    ArtifactNotFound,
    /// the dump lists more than one artifact of that name
    MultipleArtifacts,
    /// no debug units were read for the file of the artifact
    DebugUnitNotFound,
    /// the units of that file hold no contract of that name
    NotFound,
}

/// The position of the first entry of `files` for the source id `id`.
pub open spec fn file_units(files: Seq<(u32, Vec<DebugUnit>)>, id: u32) -> Option<int>
    decreases files.len(),
{
    if files.len() == 0 {
        None
    } else {
        match file_units(files.drop_last(), id) {
            Some(k) => Some(k),
            None => if files.last().0 == id {
                Some(files.len() - 1)
            } else {
                None
            },
        }
    }
}

proof fn lemma_file_units_prefix(files: Seq<(u32, Vec<DebugUnit>)>, id: u32, k: int)
    requires
        0 <= k <= files.len(),
        file_units(files.take(k), id) is Some,
    ensures
        file_units(files, id) == file_units(files.take(k), id),
    decreases files.len() - k,
{
    if k < files.len() {
        assert(files.take(k + 1).drop_last() =~= files.take(k));
        lemma_file_units_prefix(files, id, k + 1);
    } else {
        assert(files.take(k) =~= files);
    }
}

proof fn lemma_file_units_range(files: Seq<(u32, Vec<DebugUnit>)>, id: u32)
    ensures
        file_units(files, id) matches Some(k) ==> 0 <= k < files.len() && files[k].0 == id,
    decreases files.len(),
{
    if files.len() > 0 {
        lemma_file_units_range(files.drop_last(), id);
    }
}

/// The debug unit of the contract `name`: the one artifact that the dump lists
/// under the name gives the file, `files` the units read for each file (by
/// source id), and the unit is the first of that file's units with the name.
/// An error where the dump lists no artifact of the name or several, where no
/// units were read for the file, or where none of them has the name.
pub fn get_debug_unit_from_name<'a>(sources: &Sources, files: &'a Vec<(u32, Vec<DebugUnit>)>, name: &str) -> (r: Result<
    &'a DebugUnit,
    UnitLookupError,
>)
    requires
        artifacts_named(sources.artifacts_by_name@, name@) matches Some(a) ==> a.len() > 0,
    ensures
        match artifacts_named(sources.artifacts_by_name@, name@) {
            None => r matches Err(e) && e == UnitLookupError::ArtifactNotFound,
            Some(a) => if a.len() > 1 {
                r matches Err(e) && e == UnitLookupError::MultipleArtifacts
            } else {
                match file_units(files@, a[0].file_id) {
                    None => r matches Err(e) && e == UnitLookupError::DebugUnitNotFound,
                    Some(f) => match unit_of(files@[f].1@, name@) {
                        None => r matches Err(e) && e == UnitLookupError::NotFound,
                        Some(k) => r matches Ok(u) && *u == files@[f].1@[k],
                    },
                }
            },
        },
{
    let file_id = match sources.artifact_file_id(name) {
        Ok(id) => id,
        Err(ArtifactError::NotFound) => {
            return Err(UnitLookupError::ArtifactNotFound);
        },
        Err(ArtifactError::Multiple) => {
            return Err(UnitLookupError::MultipleArtifacts);
        },
    };
    let n = files.len();
    let mut i: usize = 0;
    while i < n
        invariant
            n == files@.len(),
            i <= n,
            file_units(files@.take(i as int), file_id) is None,
            artifacts_named(sources.artifacts_by_name@, name@) matches Some(a) && a.len() == 1 && a[0].file_id
                == file_id,
        decreases n - i,
    {
        assert(files@.take(i + 1).drop_last() =~= files@.take(i as int));
        if files[i].0 == file_id {
            proof {
                lemma_file_units_prefix(files@, file_id, i as int + 1);
            }
            let units = &files[i].1;
            proof {
                lemma_unit_of_index(units@, name@);
            }
            return match unit_index_by_name(units, name) {
                Some(k) => Ok(&units[k]),
                None => Err(UnitLookupError::NotFound),
            };
        }
        i = i + 1;
    }
    assert(files@.take(n as int) =~= files@);
    Err(UnitLookupError::DebugUnitNotFound)
}


/// Whether the state variables of every unit are known.
fn state_variables_known_exec(units: &Vec<DebugUnit>, context: &TraceContext) -> (r: bool)
    ensures
        r == state_variables_known(units@, context.state_variables@),
{
    let n = units.len();
    let mut i: usize = 0;
    while i < n
        invariant
            n == units@.len(),
            i <= n,
            forall|a: int, b: int|
                0 <= a < i && 0 <= b < units@[a].state_variables@.len() ==> context.state_variables@.contains_key(
                    #[trigger] units@[a].state_variables@[b],
                ),
        decreases n - i,
    {
        let u = &units[i];
        let m = u.state_variables.len();
        let mut j: usize = 0;
        while j < m
            invariant
                n == units@.len(),
                i < n,
                *u == units@[i as int],
                m == u.state_variables@.len(),
                j <= m,
                forall|a: int, b: int|
                    0 <= a < i && 0 <= b < units@[a].state_variables@.len() ==> context.state_variables@.contains_key(
                        #[trigger] units@[a].state_variables@[b],
                    ),
                forall|b: int| 0 <= b < j ==> context.state_variables@.contains_key(#[trigger] u.state_variables@[b]),
            decreases m - j,
        {
            if !context.state_variables.contains_key(&u.state_variables[j]) {
                assert(!context.state_variables@.contains_key(units@[i as int].state_variables@[j as int]));
                return false;
            }
            j = j + 1;
        }
        i = i + 1;
    }
    true
}

/// The trace of the execution `nodes`, as `build_trace` builds it;
/// `MalformedDump` where the dump breaks what a debug dump guarantees or a unit
/// names a state variable that `context` does not know.
pub fn build_trace_checked(
    units: &Vec<DebugUnit>,
    nodes: &Vec<DebugNode>,
    context: &TraceContext,
    recorder: MetricsRecorder,
) -> (r: Result<
    DebugTrace,
    TraceError,
>)
    ensures
        !state_variables_known(units@, context.state_variables@) ==> (r matches Err(e) && e
            == TraceError::MalformedDump),
        state_variables_known(units@, context.state_variables@) ==> match spec_build(units@, nodes@) {
            Outcome::Done(bv) => r matches Ok(t) && steps_view(t.steps@) == bv.steps && t.assignments@
                == bv.assignments && same_definitions(t.variables@, definitions(units@, context.state_variables@))
                && actions_of(t.metrics@) == actions_of(recorder@) + trace_phases(),
            Outcome::Failed(err) => r matches Err(e) && e == err,
            Outcome::Malformed => r matches Err(e) && e == TraceError::MalformedDump,
        },
{
    if !state_variables_known_exec(units, context) {
        return Err(TraceError::MalformedDump);
    }
    let ghost m0 = recorder@;
    let mut recorder = recorder;
    recorder.capture(Action::GenerateDebugUnits);
    recorder.capture(Action::PrepareDebugUnits);
    let (steps, assignments) = match generate_steps_checked(units, nodes) {
        Ok(built) => built,
        Err(e) => {
            return Err(e);
        },
    };
    recorder.capture(Action::GenerateSteps);
    let variables = variable_definitions(units, context);
    recorder.capture(Action::GenerateVariableDefinitions);
    let ghost m = recorder@;
    assert(m.len() == m0.len() + 4);
    assert(actions_of(m) =~= actions_of(m0) + trace_phases());
    Ok(DebugTrace { steps, variables, assignments, metrics: recorder.metrics })
}

} // verus!
