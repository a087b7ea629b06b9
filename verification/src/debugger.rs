//! Step-through debugging of a recorded test trace.
use vstd::prelude::*;

pub mod metrics;
pub mod tracer;
pub mod units;
pub mod builder;
pub mod ast;
pub mod visitor;
pub mod context;
pub mod artifact;
pub mod dump;

use crate::debugger::tracer::{DebugStep, DebugTrace, DebugTraceStep, StepKind, Variable};
use crate::debugger::tracer::{clone_variable, is_stack_at, same_variable, same_variables, scope_variables, trace_ok, StackFrame};
use crate::debugger::builder::Assignment;
use crate::text::{decimal, push_decimal, push_str};

verus! {

/// A breakpoint on a line of a source file.
#[derive(Clone, Debug)]
pub struct Breakpoint {
    pub source: String,
    pub line: usize,
}

/// A cursor over the steps of a trace, with breakpoints.
#[derive(Debug)]
pub struct Debugger {
    pub trace: DebugTrace,
    pub indx: usize,
    pub breakpoints: Vec<Breakpoint>,
}

pub open spec fn is_definition(s: DebugStep) -> bool {
    s.kind is FunctionDefinition
}

pub open spec fn line_of(steps: Seq<DebugStep>, i: int) -> usize {
    steps[i].location.line
}

/// The nearest step before `i` that is not a function definition.
pub open spec fn prev_target(steps: Seq<DebugStep>, i: int) -> Option<int>
    decreases i,
{
    if i <= 0 {
        None
    } else if !is_definition(steps[i - 1]) {
        Some(i - 1)
    } else {
        prev_target(steps, i - 1)
    }
}

/// Where `next` stops: a step on another line than `line`, not a function
/// definition, and no deeper in the call trace than `depth`.
pub open spec fn is_next_stop(s: DebugStep, line: usize, depth: nat) -> bool {
    &&& s.location.line != line
    &&& !is_definition(s)
    &&& s.call_trace@.len() <= depth
}

/// The first step from `j` on where `next` stops.
pub open spec fn next_target(steps: Seq<DebugStep>, j: int, line: usize, depth: nat) -> Option<int>
    decreases steps.len() - j,
{
    if j < 0 || j >= steps.len() {
        None
    } else if is_next_stop(steps[j], line, depth) {
        Some(j)
    } else {
        next_target(steps, j + 1, line, depth)
    }
}

/// The step that `next` moves to from step `i` and what it returns.
pub open spec fn spec_next(steps: Seq<DebugStep>, i: int) -> (int, Option<usize>) {
    match next_target(steps, i + 1, line_of(steps, i), steps[i].call_trace@.len()) {
        Some(j) => (j, Some(line_of(steps, j))),
        None => (steps.len() - 1, None),
    }
}

/// Whether a breakpoint is set on `line` of `path`.
pub open spec fn breakpoint_at(bps: Seq<Breakpoint>, path: Seq<char>, line: usize) -> bool {
    exists|k: int| 0 <= k < bps.len() && #[trigger] bps[k].source@ == path && bps[k].line == line
}

/// The first step from `j` on that is at a breakpoint.
pub open spec fn cont_target(steps: Seq<DebugStep>, bps: Seq<Breakpoint>, j: int) -> Option<int>
    decreases steps.len() - j,
{
    if j < 0 || j >= steps.len() {
        None
    } else if breakpoint_at(bps, steps[j].path@, steps[j].location.line) {
        Some(j)
    } else {
        cont_target(steps, bps, j + 1)
    }
}

/// The first step from `j` on that is not a function definition.
pub open spec fn first_non_definition(steps: Seq<DebugStep>, j: int) -> Option<int>
    decreases steps.len() - j,
{
    if j < 0 || j >= steps.len() {
        None
    } else if !is_definition(steps[j]) {
        Some(j)
    } else {
        first_non_definition(steps, j + 1)
    }
}

/// The step that `step_in` moves to from step `i` and what it returns.
pub open spec fn spec_step_in(steps: Seq<DebugStep>, i: int) -> (int, Option<usize>) {
    if steps[i].kind is FunctionCall {
        match first_non_definition(steps, i + 1) {
            Some(j) => (j, Some(line_of(steps, j))),
            None => spec_next(steps, steps.len() - 1),
        }
    } else {
        spec_next(steps, i)
    }
}

/// Every entry of every call trace points at a step of the trace.
pub open spec fn call_traces_in_range(steps: Seq<DebugStep>) -> bool {
    forall|i: int, k: int|
        0 <= i < steps.len() && 0 <= k < steps[i].call_trace@.len() ==> #[trigger] steps[i].call_trace@[k]
            < steps.len()
}

impl Debugger {
    /// A debugger positioned on the first step of `trace`, without breakpoints.
    pub fn new(trace: DebugTrace) -> (r: Self)
        ensures
            r.trace == trace,
            r.indx == 0,
            r.breakpoints@.len() == 0,
    {
        Debugger { trace, indx: 0, breakpoints: Vec::new() }
    }

    /// The debugger points at a step of a non-empty trace whose call traces point
    /// at steps of the trace.
    pub open spec fn wf(&self) -> bool {
        &&& 0 < self.trace.steps@.len()
        &&& self.indx < self.trace.steps@.len()
        &&& call_traces_in_range(self.trace.steps@)
    }

    pub fn set_breakpoint(&mut self, source: String, line: usize)
        ensures
            final(self).breakpoints@ == old(self).breakpoints@.push(Breakpoint { source, line }),
            final(self).trace == old(self).trace,
            final(self).indx == old(self).indx,
            old(self).wf() ==> final(self).wf(),
    {
        self.breakpoints.push(Breakpoint { source, line });
    }

    /// The line of the current step.
    pub fn debug_location(&self) -> (r: usize)
        requires
            self.indx < self.trace.steps@.len(),
        ensures
            r == line_of(self.trace.steps@, self.indx as int),
    {
        self.trace.steps[self.indx].location.line
    }

    /// Goes back to the previous step that is not a function definition.
    pub fn prev(&mut self) -> (r: Option<usize>)
        requires
            old(self).indx <= old(self).trace.steps@.len(),
        ensures
            final(self).trace == old(self).trace,
            final(self).breakpoints == old(self).breakpoints,
            match prev_target(old(self).trace.steps@, old(self).indx as int) {
                Some(j) => final(self).indx == j && r == Some(line_of(old(self).trace.steps@, j)),
                None => final(self).indx == 0 && r is None,
            },
            old(self).wf() ==> final(self).wf(),
    {
        let ghost steps = self.trace.steps@;
        let ghost start = self.indx as int;
        while self.indx > 0
            invariant
                steps == self.trace.steps@,
                start == old(self).indx,
                self.trace == old(self).trace,
                self.breakpoints == old(self).breakpoints,
                self.indx <= steps.len(),
                prev_target(steps, self.indx as int) == prev_target(steps, start),
            decreases self.indx,
        {
            self.indx -= 1;
            if !matches!(self.trace.steps[self.indx].kind, StepKind::FunctionDefinition(_)) {
                assert(!is_definition(steps[self.indx as int]));
                assert(prev_target(steps, self.indx + 1) == Some(self.indx as int));
                let l = self.trace.steps[self.indx].location.line;
                return Some(l);
            }
        }
        None
    }

    /// Continues to the next statement of the current function: skips the steps on
    /// the current line, function definitions, and the steps of nested calls.
    pub fn next(&mut self) -> (r: Option<usize>)
        requires
            old(self).indx < old(self).trace.steps@.len(),
        ensures
            final(self).trace == old(self).trace,
            final(self).breakpoints == old(self).breakpoints,
            final(self).indx == spec_next(old(self).trace.steps@, old(self).indx as int).0,
            r == spec_next(old(self).trace.steps@, old(self).indx as int).1,
            old(self).wf() ==> final(self).wf(),
    {
        let ghost steps = self.trace.steps@;
        let ghost start = self.indx as int;
        let call_trace_length = self.trace.steps[self.indx].call_trace.len();
        let current_line = self.debug_location();

        while self.indx < self.trace.steps.len() - 1
            invariant
                steps == self.trace.steps@,
                start == old(self).indx,
                self.trace == old(self).trace,
                self.breakpoints == old(self).breakpoints,
                start <= self.indx < steps.len(),
                0 <= start < steps.len(),
                current_line == line_of(steps, start),
                call_trace_length == steps[start].call_trace@.len(),
                next_target(steps, self.indx + 1, current_line, call_trace_length as nat)
                    == next_target(steps, start + 1, current_line, call_trace_length as nat),
            decreases steps.len() - self.indx,
        {
            self.indx += 1;
            let step = &self.trace.steps[self.indx];

            if step.location.line == current_line {
                // the same statement again, as happens around a function call
                continue;
            }
            if matches!(step.kind, StepKind::FunctionDefinition(_)) {
                continue;
            }
            if step.call_trace.len() > call_trace_length {
                // a nested step: `next` never enters a call
                continue;
            }
            assert(is_next_stop(steps[self.indx as int], current_line, call_trace_length as nat));
            assert(next_target(steps, self.indx as int, current_line, call_trace_length as nat)
                == Some(self.indx as int));
            let l = self.trace.steps[self.indx].location.line;
                return Some(l);
        }
        None
    }

    /// Continues until a step at a breakpoint.
    pub fn cont(&mut self) -> (r: Option<usize>)
        requires
            old(self).trace.steps@.len() > 0,
        ensures
            final(self).trace == old(self).trace,
            final(self).breakpoints == old(self).breakpoints,
            old(self).indx + 1 < old(self).trace.steps@.len() ==> match cont_target(
                old(self).trace.steps@,
                old(self).breakpoints@,
                old(self).indx + 1,
            ) {
                Some(j) => final(self).indx == j && r == Some(line_of(old(self).trace.steps@, j)),
                None => final(self).indx == old(self).trace.steps@.len() - 1 && r is None,
            },
            old(self).indx + 1 >= old(self).trace.steps@.len() ==> final(self).indx == old(
                self,
            ).indx && r is None,
            old(self).wf() ==> final(self).wf(),
    {
        let ghost steps = self.trace.steps@;
        let ghost start = self.indx as int;
        let ghost bps = self.breakpoints@;
        while self.indx < self.trace.steps.len() - 1
            invariant
                steps == self.trace.steps@,
                bps == self.breakpoints@,
                start == old(self).indx,
                self.trace == old(self).trace,
                self.breakpoints == old(self).breakpoints,
                steps.len() > 0,
                start <= self.indx,
                start + 1 < steps.len() ==> cont_target(steps, bps, self.indx + 1) == cont_target(
                    steps,
                    bps,
                    start + 1,
                ),
                start + 1 < steps.len() ==> self.indx < steps.len(),
                start + 1 >= steps.len() ==> self.indx == start,
            decreases steps.len() - self.indx,
        {
            self.indx += 1;
            let step = &self.trace.steps[self.indx];

            if self.is_breakpoint(step.path.clone(), step.location.line) {
                assert(cont_target(steps, bps, self.indx as int) == Some(self.indx as int));
                let l = self.trace.steps[self.indx].location.line;
                return Some(l);
            }
        }
        None
    }

    /// Whether a breakpoint is set on `line` of `path`.
    pub fn is_breakpoint(&self, path: String, line: usize) -> (r: bool)
        ensures
            r == breakpoint_at(self.breakpoints@, path@, line),
    {
        let mut i: usize = 0;
        while i < self.breakpoints.len()
            invariant
                i <= self.breakpoints@.len(),
                forall|k: int|
                    0 <= k < i ==> !(#[trigger] self.breakpoints@[k].source@ == path@
                        && self.breakpoints@[k].line == line),
            decreases self.breakpoints@.len() - i,
        {
            let bp = &self.breakpoints[i];
            if bp.source == path && bp.line == line {
                return true;
            }
            i += 1;
        }
        false
    }

    /// Returns to the caller of the current function: the latest entry of the
    /// call trace of the current step.
    pub fn step_out(&mut self) -> (r: Option<usize>)
        requires
            old(self).indx < old(self).trace.steps@.len(),
            ({
                let ct = old(self).trace.steps@[old(self).indx as int].call_trace@;
                ct.len() > 0 ==> ct.last() < old(self).trace.steps@.len()
            }),
        ensures
            final(self).trace == old(self).trace,
            final(self).breakpoints == old(self).breakpoints,
            ({
                let ct = old(self).trace.steps@[old(self).indx as int].call_trace@;
                if ct.len() > 0 {
                    final(self).indx == ct.last() && r == Some(
                        line_of(old(self).trace.steps@, ct.last() as int),
                    )
                } else {
                    final(self).indx == old(self).indx && r is None
                }
            }),
            old(self).wf() ==> final(self).wf(),
    {
        let n = self.trace.steps[self.indx].call_trace.len();
        if n > 0 {
            self.indx = self.trace.steps[self.indx].call_trace[n - 1];
            Some(self.debug_location())
        } else {
            None
        }
    }

    /// Goes into the function called at the current step, or where the current
    /// step calls nothing, continues like `next`.
    pub fn step_in(&mut self) -> (r: Option<usize>)
        requires
            old(self).indx < old(self).trace.steps@.len(),
        ensures
            final(self).trace == old(self).trace,
            final(self).breakpoints == old(self).breakpoints,
            final(self).indx == spec_step_in(old(self).trace.steps@, old(self).indx as int).0,
            r == spec_step_in(old(self).trace.steps@, old(self).indx as int).1,
            old(self).wf() ==> final(self).wf(),
    {
        let ghost steps = self.trace.steps@;
        let ghost start = self.indx as int;
        if matches!(self.trace.steps[self.indx].kind, StepKind::FunctionCall(_)) {
            while self.indx < self.trace.steps.len() - 1
                invariant
                    steps == self.trace.steps@,
                    start == old(self).indx,
                    self.trace == old(self).trace,
                    self.breakpoints == old(self).breakpoints,
                    start <= self.indx < steps.len(),
                    steps[start].kind is FunctionCall,
                    first_non_definition(steps, self.indx + 1) == first_non_definition(
                        steps,
                        start + 1,
                    ),
                decreases steps.len() - self.indx,
            {
                self.indx += 1;

                let step = &self.trace.steps[self.indx];
                if matches!(step.kind, StepKind::FunctionDefinition(_)) {
                    continue;
                }
                assert(first_non_definition(steps, self.indx as int) == Some(self.indx as int));
                let l = self.trace.steps[self.indx].location.line;
                return Some(l);
            }
        }
        self.next()
    }

    /// Moves to the last step of the trace.
    pub fn last(&mut self)
        requires
            old(self).trace.steps@.len() > 0,
        ensures
            final(self).indx == old(self).trace.steps@.len() - 1,
            final(self).trace == old(self).trace,
            final(self).breakpoints == old(self).breakpoints,
    {
        self.indx = self.trace.steps.len() - 1;
    }

    /// The variables in scope at the current step.
    pub fn scope(&self) -> (r: Vec<Variable>)
        requires
            self.indx < self.trace.steps@.len(),
        ensures
            same_variables(
                r@,
                scope_variables(
                    self.trace.variables@,
                    self.trace.steps@[self.indx as int].variables_in_scope@,
                ),
            ),
    {
        self.trace.scope(self.indx)
    }

    /// The stack of frames at the current step.
    pub fn trace(&self) -> (r: DebugTraceStep)
        requires
            trace_ok(self.trace.steps@, self.indx as int),
        ensures
            is_stack_at(self.trace.steps@, self.indx as int, r),
    {
        self.trace.trace(self.indx)
    }
}


/// `next` stops at the first step after the current one that is on another line,
/// not a function definition, and no deeper in the call trace; it skips no such step.
pub proof fn law_next_stops_at_first_statement_in_scope(steps: Seq<DebugStep>, i: int, j0: int)
    requires
        0 <= i < steps.len(),
        i < j0,
        next_target(steps, j0, line_of(steps, i), steps[i].call_trace@.len()) is Some,
    ensures
        ({
            let j = next_target(steps, j0, line_of(steps, i), steps[i].call_trace@.len())->0;
            &&& j0 <= j < steps.len()
            &&& line_of(steps, j) != line_of(steps, i)
            &&& !is_definition(steps[j])
            &&& steps[j].call_trace@.len() <= steps[i].call_trace@.len()
            &&& forall|k: int|
                j0 <= k < j ==> !is_next_stop(
                    #[trigger] steps[k],
                    line_of(steps, i),
                    steps[i].call_trace@.len(),
                )
        }),
    decreases steps.len() - j0,
{
    if !is_next_stop(steps[j0], line_of(steps, i), steps[i].call_trace@.len()) {
        law_next_stops_at_first_statement_in_scope(steps, i, j0 + 1);
    }
}

/// `cont` stops at the first later step at a breakpoint, and only there.
pub proof fn law_cont_stops_at_first_breakpoint(steps: Seq<DebugStep>, bps: Seq<Breakpoint>, j0: int)
    requires
        0 <= j0,
        cont_target(steps, bps, j0) is Some,
    ensures
        ({
            let j = cont_target(steps, bps, j0)->0;
            &&& j0 <= j < steps.len()
            &&& breakpoint_at(bps, steps[j].path@, steps[j].location.line)
            &&& forall|k: int|
                j0 <= k < j ==> !breakpoint_at(bps, (#[trigger] steps[k]).path@, steps[k].location.line)
        }),
    decreases steps.len() - j0,
{
    if !breakpoint_at(bps, steps[j0].path@, steps[j0].location.line) {
        law_cont_stops_at_first_breakpoint(steps, bps, j0 + 1);
    }
}

/// `prev` goes back to the nearest earlier step that is not a function definition,
/// skipping only function definitions.
pub proof fn law_prev_skips_only_definitions(steps: Seq<DebugStep>, i: int)
    requires
        0 <= i <= steps.len(),
    ensures
        match prev_target(steps, i) {
            Some(j) => 0 <= j < i && !is_definition(steps[j]) && forall|k: int|
                j < k < i ==> is_definition(#[trigger] steps[k]),
            None => forall|k: int| 0 <= k < i ==> is_definition(#[trigger] steps[k]),
        },
    decreases i,
{
    if i > 0 && is_definition(steps[i - 1]) {
        law_prev_skips_only_definitions(steps, i - 1);
    }
}

/// `step_in` on a call enters the called function at its first step that is not a
/// function definition.
pub proof fn law_step_in_enters_call(steps: Seq<DebugStep>, i: int)
    requires
        0 <= i < steps.len(),
        steps[i].kind is FunctionCall,
        first_non_definition(steps, i + 1) is Some,
    ensures
        ({
            let j = spec_step_in(steps, i).0;
            &&& i < j < steps.len()
            &&& !is_definition(steps[j])
            &&& forall|k: int| i < k < j ==> is_definition(#[trigger] steps[k])
            &&& spec_step_in(steps, i).1 == Some(line_of(steps, j))
        }),
{
    lemma_first_non_definition(steps, i + 1);
}

proof fn lemma_first_non_definition(steps: Seq<DebugStep>, j0: int)
    requires
        0 <= j0,
        first_non_definition(steps, j0) is Some,
    ensures
        ({
            let j = first_non_definition(steps, j0)->0;
            &&& j0 <= j < steps.len()
            &&& !is_definition(steps[j])
            &&& forall|k: int| j0 <= k < j ==> is_definition(#[trigger] steps[k])
        }),
    decreases steps.len() - j0,
{
    if is_definition(steps[j0]) {
        lemma_first_non_definition(steps, j0 + 1);
    }
}


/// A stack frame as the debug adapter protocol shows it: lines as the trace
/// counts them, columns counted from one.
#[derive(Clone, Debug, PartialEq, Eq)]
pub struct DapFrame {
    pub id: i64,
    pub name: String,
    pub line: i64,
    pub column: i64,
    pub end_line: Option<i64>,
    pub end_column: Option<i64>,
    pub path: String,
}

/// The name of the frame shown at position `i`.
pub open spec fn frame_name(i: nat) -> Seq<char> {
    "Frame "@ + decimal(i)
}

/// The frame shown at position `i` for the stack frame `f`.
pub open spec fn frame_shown(f: StackFrame, i: int) -> (int, Seq<char>, i64, i64, Option<i64>, Option<i64>, Seq<char>) {
    let l = f.location;
    (
        i,
        frame_name(i as nat),
        l.line as i64,
        (l.column + 1) as i64,
        match l.end_line {
            Some(x) => Some(x as i64),
            None => None,
        },
        match l.end_column {
            Some(x) => Some((x + 1) as i64),
            None => None,
        },
        f.path@,
    )
}

pub open spec fn frame_view(f: DapFrame) -> (int, Seq<char>, i64, i64, Option<i64>, Option<i64>, Seq<char>) {
    (f.id as int, f.name@, f.line, f.column, f.end_line, f.end_column, f.path@)
}

/// The columns of the frames can be counted from one.
pub open spec fn columns_fit(frames: Seq<StackFrame>) -> bool {
    forall|i: int|
        0 <= i < frames.len() ==> (#[trigger] frames[i]).location.column < usize::MAX && (
        frames[i].location.end_column matches Some(c) ==> c < usize::MAX)
}

/// The frames of the stack `step` as the protocol shows them, innermost
/// first and numbered from zero, with their number.
pub fn dap_stack_frames(step: &DebugTraceStep) -> (r: (Vec<DapFrame>, i64))
    requires
        step.stack_frames@.len() <= i64::MAX,
        columns_fit(step.stack_frames@),
    ensures
        r.1 == step.stack_frames@.len(),
        r.0@.len() == step.stack_frames@.len(),
        forall|i: int|
            0 <= i < r.0@.len() ==> frame_view(#[trigger] r.0@[i]) == frame_shown(
                step.stack_frames@[step.stack_frames@.len() - 1 - i],
                i,
            ),
{
    let frames = &step.stack_frames;
    let n = frames.len();
    let mut r: Vec<DapFrame> = Vec::new();
    let mut i: usize = 0;
    while i < n
        invariant
            n == frames@.len(),
            n <= i64::MAX,
            columns_fit(frames@),
            i <= n,
            r@.len() == i,
            forall|j: int| 0 <= j < i ==> frame_view(#[trigger] r@[j]) == frame_shown(frames@[n - 1 - j], j),
        decreases n - i,
    {
        let f = &frames[n - 1 - i];
        assert(f.location.column < usize::MAX);
        let l = f.location;
        let mut name = String::new();
        push_str(&mut name, "Frame ");
        push_decimal(&mut name, i);
        proof {
            reveal_strlit("Frame ");
        }
        let end_column = match l.end_column {
            Some(c) => Some((c + 1) as i64),
            None => None,
        };
        let end_line = match l.end_line {
            Some(x) => Some(x as i64),
            None => None,
        };
        r.push(
            DapFrame {
                id: i as i64,
                name,
                line: l.line as i64,
                column: (l.column + 1) as i64,
                end_line,
                end_column,
                path: f.path.clone(),
            },
        );
        i = i + 1;
    }
    (r, n as i64)
}

/// The scopes shown for the variables `vars`: each variable by its name,
/// referred to by its id.
pub fn dap_scopes(vars: Vec<Variable>) -> (r: Vec<(String, i64)>)
    ensures
        r@.len() == vars@.len(),
        forall|i: int|
            0 <= i < r@.len() ==> (#[trigger] r@[i]).0@ == vars@[i].name@ && r@[i].1 == vars@[i].id as i64,
{
    let mut r: Vec<(String, i64)> = Vec::new();
    let n = vars.len();
    let mut i: usize = 0;
    while i < n
        invariant
            n == vars@.len(),
            i <= n,
            r@.len() == i,
            forall|j: int| 0 <= j < i ==> (#[trigger] r@[j]).0@ == vars@[j].name@ && r@[j].1 == vars@[j].id as i64,
        decreases n - i,
    {
        r.push((vars[i].name.clone(), vars[i].id as i64));
        i = i + 1;
    }
    r
}

impl Debugger {
    /// Sets a breakpoint on each of the lines `lines` of the file `source`, in
    /// order, and answers with the lines set.
    pub fn set_breakpoints(&mut self, source: String, lines: &Vec<i64>) -> (r: Vec<i64>)
        ensures
            r@ == lines@,
            final(self).trace == old(self).trace,
            final(self).indx == old(self).indx,
            final(self).breakpoints@ == old(self).breakpoints@ + lines@.map_values(
                |l: i64| Breakpoint { source, line: l as usize },
            ),
            old(self).wf() ==> final(self).wf(),
    {
        let ghost start = self.breakpoints@;
        let mut r: Vec<i64> = Vec::new();
        let n = lines.len();
        let mut i: usize = 0;
        while i < n
            invariant
                n == lines@.len(),
                i <= n,
                r@ == lines@.take(i as int),
                self.trace == old(self).trace,
                self.indx == old(self).indx,
                self.breakpoints@ == start + lines@.take(i as int).map_values(
                    |l: i64| Breakpoint { source, line: l as usize },
                ),
                start == old(self).breakpoints@,
            decreases n - i,
        {
            self.set_breakpoint(source.clone(), lines[i] as usize);
            r.push(lines[i]);
            assert(lines@.take(i + 1).map_values(|l: i64| Breakpoint { source, line: l as usize })
                =~= lines@.take(i as int).map_values(|l: i64| Breakpoint { source, line: l as usize }).push(
                Breakpoint { source, line: lines@[i as int] as usize },
            ));
            assert(self.breakpoints@ =~= start + lines@.take(i + 1).map_values(
                |l: i64| Breakpoint { source, line: l as usize },
            ));
            i = i + 1;
            assert(r@ =~= lines@.take(i as int));
        }
        assert(lines@.take(n as int) =~= lines@);
        r
    }
}

/// Why the value of a variable cannot be read at a step.
#[derive(Clone, Copy, Debug, PartialEq, Eq, Structural)]
pub enum VariableReadError {
    /// the variable's stack position is beyond the stack of the step
    NoStackValue(usize),
}

impl Debugger {
    /// The variable `var_id` and the stack word that holds its value at the
    /// current step: `None` where the trace has no place or no definition for
    /// the variable, an error where its stack position is beyond the step's stack.
    pub fn variable_word(&self, var_id: u64) -> (r: Result<Option<(Variable, Vec<u8>)>, VariableReadError>)
        requires
            self.indx < self.trace.steps@.len(),
        ensures
            !(self.trace.assignments@.contains_key(var_id) && self.trace.variables@.contains_key(var_id)) ==> r
                matches Ok(None),
            self.trace.assignments@.contains_key(var_id) && self.trace.variables@.contains_key(var_id) ==> match self.trace.assignments@[var_id] {
                Assignment::Stack(i) => {
                    let stack = self.trace.steps@[self.indx as int].state_snapshot.stack@;
                    if i < stack.len() {
                        r matches Ok(Some((v, w))) && same_variable(v, self.trace.variables@[var_id]) && w@
                            == stack[i as int]@
                    } else {
                        r == Err::<Option<(Variable, Vec<u8>)>, VariableReadError>(VariableReadError::NoStackValue(i))
                    }
                },
            },
    {
        let assignment = match self.trace.assignments.get(&var_id) {
            Some(a) => *a,
            None => {
                return Ok(None);
            },
        };
        let variable = match self.trace.variables.get(&var_id) {
            Some(v) => v,
            None => {
                return Ok(None);
            },
        };
        let step = &self.trace.steps[self.indx];
        match assignment {
            Assignment::Stack(index) => {
                if index < step.state_snapshot.stack.len() {
                    let word = step.state_snapshot.stack[index].clone();
                    assert(word@ =~= step.state_snapshot.stack@[index as int]@);
                    Ok(Some((clone_variable(variable), word)))
                } else {
                    Err(VariableReadError::NoStackValue(index))
                }
            },
        }
    }
}


} // verus!
