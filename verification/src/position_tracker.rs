//! Tracks document edits and moves previously computed positions (such as
//! inlay hints) so that they keep pointing at the same text after the edits.
use vstd::prelude::*;
use vstd::utf8::encode_utf8;

verus! {

/// A zero-based line/character position in a text document.
#[derive(Clone, Copy, Debug, PartialEq, Eq, Structural)]
pub struct Position {
    pub line: u32,
    pub character: u32,
}

impl Position {
    pub fn new(line: u32, character: u32) -> (r: Position)
        ensures
            r.line == line,
            r.character == character,
    {
        Position { line, character }
    }
}

/// A range between two positions of a text document.
#[derive(Clone, Copy, Debug, PartialEq, Eq, Structural)]
pub struct Range {
    pub start: Position,
    pub end: Position,
}

impl Range {
    pub fn new(start: Position, end: Position) -> (r: Range)
        ensures
            r.start == start,
            r.end == end,
    {
        Range { start, end }
    }
}

/// One edit of a document: the `range` that was replaced by `text`
/// (no range means that the whole document was replaced).
#[derive(Clone, Debug)]
pub struct TextDocumentContentChangeEvent {
    pub range: Option<Range>,
    pub range_length: Option<u32>,
    pub text: String,
}

/// `(line, character, net change)` of one edit.
pub type Adjustment = (u32, u32, i32);

/// Number of `'\n'` characters in `s`.
pub open spec fn count_newlines(s: Seq<char>) -> nat
    decreases s.len(),
{
    if s.len() == 0 {
        0
    } else {
        count_newlines(s.drop_last()) + if s.last() == '\n' {
            1nat
        } else {
            0nat
        }
    }
}

/// Length of the UTF-8 encoding of `s`, in bytes.
pub open spec fn byte_len(s: Seq<char>) -> nat {
    encode_utf8(s).len()
}

/// The sum `a + b` as an `i32`, or `None` where it leaves the range of `i32`.
pub open spec fn add_i32(a: int, b: int) -> Option<i32> {
    if i32::MIN <= a + b <= i32::MAX {
        Some((a + b) as i32)
    } else {
        None
    }
}

/// The sum `a + b` as a `u32`, or `None` where it leaves the range of `u32`.
pub open spec fn add_u32(a: int, b: int) -> Option<u32> {
    if 0 <= a + b <= u32::MAX {
        Some((a + b) as u32)
    } else {
        None
    }
}

/// Lines added minus lines removed by replacing `r` with `text`.
pub open spec fn net_line_change(r: Range, text: Seq<char>) -> int {
    (count_newlines(text) as i32) as int - ((r.end.line - r.start.line) as i32) as int
}

/// Bytes added minus characters removed by replacing `r` (on one line) with `text`.
pub open spec fn net_char_change(r: Range, text: Seq<char>) -> int {
    (byte_len(text) as i32) as int - ((r.end.character - r.start.character) as i32) as int
}

/// Whether an edit stays on one line and inserts no line break.
pub open spec fn is_same_line_edit(r: Range, text: Seq<char>) -> bool {
    r.start.line == r.end.line && count_newlines(text) == 0
}

/// The edits on which the tracker can be built: ranges run forwards and the
/// net changes fit in an `i32`.
pub open spec fn change_ok(c: TextDocumentContentChangeEvent) -> bool {
    c.range matches Some(r) ==> {
        &&& c.text@.len() <= usize::MAX
        &&& byte_len(c.text@) <= usize::MAX
        &&& r.start.line <= r.end.line
        &&& i32::MIN <= net_line_change(r, c.text@) <= i32::MAX
        &&& is_same_line_edit(r, c.text@) ==> {
            &&& r.start.character <= r.end.character
            &&& i32::MIN <= net_char_change(r, c.text@) <= i32::MAX
        }
    }
}

pub open spec fn changes_ok(cs: Seq<TextDocumentContentChangeEvent>) -> bool {
    forall|i: int| 0 <= i < cs.len() ==> change_ok(#[trigger] cs[i])
}

/// The line adjustments recorded for the edits, in the order of the edits.
pub open spec fn raw_line_adjustments(cs: Seq<TextDocumentContentChangeEvent>) -> Seq<Adjustment>
    decreases cs.len(),
{
    if cs.len() == 0 {
        seq![]
    } else {
        let c = cs.last();
        raw_line_adjustments(cs.drop_last()) + match c.range {
            Some(r) => if net_line_change(r, c.text@) != 0 {
                seq![(r.start.line, r.start.character, net_line_change(r, c.text@) as i32)]
            } else {
                seq![]
            },
            None => seq![],
        }
    }
}

/// The character adjustments recorded for the edits, in the order of the edits.
pub open spec fn raw_char_adjustments(cs: Seq<TextDocumentContentChangeEvent>) -> Seq<Adjustment>
    decreases cs.len(),
{
    if cs.len() == 0 {
        seq![]
    } else {
        let c = cs.last();
        raw_char_adjustments(cs.drop_last()) + match c.range {
            Some(r) => if is_same_line_edit(r, c.text@) && net_char_change(r, c.text@) != 0 {
                seq![(r.start.line, r.end.character, net_char_change(r, c.text@) as i32)]
            } else {
                seq![]
            },
            None => seq![],
        }
    }
}

/// The ranged edits, as `(range, text)`.
pub open spec fn raw_replacements(cs: Seq<TextDocumentContentChangeEvent>) -> Seq<(Range, Seq<char>)>
    decreases cs.len(),
{
    if cs.len() == 0 {
        seq![]
    } else {
        let c = cs.last();
        raw_replacements(cs.drop_last()) + match c.range {
            Some(r) => seq![(r, c.text@)],
            None => seq![],
        }
    }
}

/// `a` comes no later than `b` when ordered by `(line, character)`.
pub open spec fn key_le(a: Adjustment, b: Adjustment) -> bool {
    a.0 < b.0 || (a.0 == b.0 && a.1 <= b.1)
}

/// `x` inserted into `s` after every element whose key is no greater than its own.
pub open spec fn insert_sorted(s: Seq<Adjustment>, x: Adjustment) -> Seq<Adjustment>
    decreases s.len(),
{
    if s.len() == 0 {
        seq![x]
    } else if key_le(s.last(), x) {
        s.push(x)
    } else {
        insert_sorted(s.drop_last(), x).push(s.last())
    }
}

/// The stable sort of `s` by `(line, character)`.
pub open spec fn stable_sort(s: Seq<Adjustment>) -> Seq<Adjustment>
    decreases s.len(),
{
    if s.len() == 0 {
        seq![]
    } else {
        insert_sorted(stable_sort(s.drop_last()), s.last())
    }
}

/// What a tracker holds.
pub struct TrackerView {
    pub line_adjustments: Seq<Adjustment>,
    pub char_adjustments: Seq<Adjustment>,
    pub replacements: Seq<(Range, Seq<char>)>,
}

/// The tracker built from a sequence of edits.
pub open spec fn spec_tracker(cs: Seq<TextDocumentContentChangeEvent>) -> TrackerView {
    TrackerView {
        line_adjustments: stable_sort(raw_line_adjustments(cs)),
        char_adjustments: stable_sort(raw_char_adjustments(cs)),
        replacements: raw_replacements(cs),
    }
}

/// One line adjustment applied to the running line change `cum` of position `p`;
/// `None` where the arithmetic overflows.
pub open spec fn line_step(cum: i32, a: Adjustment, p: Position) -> Option<i32> {
    let (change_line, change_char, line_change) = a;
    if line_change < 0 {
        if line_change == i32::MIN || change_line - line_change > u32::MAX {
            None
        } else if p.line > change_line - line_change {
            // after the deleted lines
            add_i32(cum as int, line_change as int)
        } else if p.line > change_line || (p.line == change_line && p.character > change_char) {
            // inside the deleted lines: back to where the deletion starts
            add_i32((change_line as i32) as int, -((p.line as i32) as int))
        } else {
            Some(cum)
        }
    } else if p.line > change_line || (p.line == change_line && p.character >= change_char) {
        add_i32(cum as int, line_change as int)
    } else {
        Some(cum)
    }
}

/// The running line change after the first `k` line adjustments.
pub open spec fn line_fold(adjs: Seq<Adjustment>, p: Position, k: int) -> Option<i32>
    decreases k,
{
    if k <= 0 {
        Some(0i32)
    } else {
        match line_fold(adjs, p, k - 1) {
            Some(cum) => line_step(cum, adjs[k - 1], p),
            None => None,
        }
    }
}

/// One character adjustment applied to the running character change of `p`.
pub open spec fn char_step(cum: i32, a: Adjustment, p: Position) -> Option<i32> {
    if a.0 == p.line && p.character >= a.1 {
        add_i32(cum as int, a.2 as int)
    } else {
        Some(cum)
    }
}

/// The running character change after the first `k` character adjustments.
pub open spec fn char_fold(adjs: Seq<Adjustment>, p: Position, k: int) -> Option<i32>
    decreases k,
{
    if k <= 0 {
        Some(0i32)
    } else {
        match char_fold(adjs, p, k - 1) {
            Some(cum) => char_step(cum, adjs[k - 1], p),
            None => None,
        }
    }
}

/// The character of `p` on `new_line` when the first replacement from index `k` on
/// that joined `new_line` and the line of `p` is taken into account.
pub open spec fn merged_character(
    reps: Seq<(Range, Seq<char>)>,
    new_line: u32,
    p: Position,
    k: int,
) -> Option<u32>
    decreases reps.len() - k,
{
    if k >= reps.len() || k < 0 {
        Some(p.character)
    } else {
        let (r, text) = reps[k];
        if r.start.line == new_line && r.end.line == p.line {
            let after = if p.character > r.end.character {
                p.character - r.end.character
            } else {
                0
            };
            match add_u32(r.start.character as int, ((byte_len(text) as usize) as u32) as int) {
                Some(before) => add_u32(before as int, after),
                None => None,
            }
        } else {
            merged_character(reps, new_line, p, k + 1)
        }
    }
}

pub open spec fn clamp_to_u32(x: i32) -> u32 {
    if x < 0 {
        0
    } else {
        x as u32
    }
}

pub open spec fn spec_is_valid_position(p: Position) -> bool {
    p.line < u32::MAX && p.character < u32::MAX
}

pub open spec fn checked_position(line: u32, character: u32) -> Option<Position> {
    if spec_is_valid_position(Position { line, character }) {
        Some(Position { line, character })
    } else {
        None
    }
}

/// Where `p` goes under the tracked edits: `Some(r)` with the result `r` of the
/// adjustment, or `None` where the computation overflows.
pub open spec fn spec_adjust(t: TrackerView, p: Position) -> Option<Option<Position>> {
    match line_fold(t.line_adjustments, p, t.line_adjustments.len() as int) {
        None => None,
        Some(cum) => match add_i32((p.line as i32) as int, cum as int) {
            None => None,
            Some(l) => {
                let new_line = clamp_to_u32(l);
                if new_line == p.line {
                    match char_fold(t.char_adjustments, p, t.char_adjustments.len() as int) {
                        None => None,
                        Some(cc) => match add_i32((p.character as i32) as int, cc as int) {
                            None => None,
                            Some(c) => Some(checked_position(new_line, clamp_to_u32(c))),
                        },
                    }
                } else if new_line < p.line {
                    match merged_character(t.replacements, new_line, p, 0) {
                        None => None,
                        Some(c) => Some(checked_position(new_line, c)),
                    }
                } else {
                    Some(checked_position(new_line, p.character))
                }
            },
        },
    }
}

/// Keeps the positions of `ps` that survive the edits, each adjusted, in order.
pub open spec fn spec_adjust_all(t: TrackerView, ps: Seq<Position>) -> Seq<Position>
    decreases ps.len(),
{
    if ps.len() == 0 {
        seq![]
    } else {
        spec_adjust_all(t, ps.drop_last()) + match spec_adjust(t, ps.last()) {
            Some(Some(q)) => seq![q],
            _ => seq![],
        }
    }
}

/// Tracks a sequence of document changes and applies them to positions.
#[derive(Debug)]
pub struct PositionTracker {
    /// `(change line, change character, net line change)`
    line_adjustments: Vec<Adjustment>,
    /// `(line, after character, net character change)` of same-line edits
    char_adjustments: Vec<Adjustment>,
    /// the ranged edits, kept for edits that join lines
    replacements: Vec<(Range, String)>,
}

impl View for PositionTracker {
    type V = TrackerView;

    closed spec fn view(&self) -> TrackerView {
        TrackerView {
            line_adjustments: self.line_adjustments@,
            char_adjustments: self.char_adjustments@,
            replacements: self.replacements@.map_values(|r: (Range, String)| (r.0, r.1@)),
        }
    }
}

/// Counts the line breaks of `s`.
fn newline_count(s: &str) -> (r: usize)
    requires
        s@.len() <= usize::MAX,
    ensures
        r == count_newlines(s@),
{
    let mut n: usize = 0;
    for c in it: s.chars()
        invariant
            it.seq() == s@,
            n == count_newlines(s@.take(it.index() as int)),
            n <= it.index(),
            s@.len() <= usize::MAX,
    {
        assert(s@.take(it.index() + 1).drop_last() == s@.take(it.index() as int));
        if c == '\n' {
            n = n + 1;
        }
    }
    assert(s@.take(s@.len() as int) == s@);
    n
}

/// `insert_sorted(s, x)` is `x` inserted at `j` where `j` follows the last element
/// whose key is no greater than that of `x`.
proof fn lemma_insert_sorted_at(s: Seq<Adjustment>, x: Adjustment, j: int, k: int)
    requires
        0 <= j <= k <= s.len(),
        j == 0 || key_le(s[j - 1], x),
        forall|i: int| j <= i < k ==> !key_le(#[trigger] s[i], x),
    ensures
        insert_sorted(s.take(k), x) == s.take(j).push(x) + s.subrange(j, k),
    decreases k,
{
    if k == j {
        if j == 0 {
            assert(s.take(0) =~= Seq::<Adjustment>::empty());
        } else {
            assert(s.take(j).drop_last() =~= s.take(j - 1));
            assert(s.take(j).last() == s[j - 1]);
        }
        assert(s.subrange(j, j) =~= Seq::<Adjustment>::empty());
        assert(s.take(j).push(x) + s.subrange(j, j) =~= s.take(j).push(x));
    } else {
        lemma_insert_sorted_at(s, x, j, k - 1);
        assert(s.take(k).last() == s[k - 1]);
        assert(s.take(k).drop_last() =~= s.take(k - 1));
        assert(s.take(j).push(x) + s.subrange(j, k) =~= (s.take(j).push(x) + s.subrange(
            j,
            k - 1,
        )).push(s[k - 1]));
    }
}

/// Inserts `x` into the sorted vector `v`, after all elements with a key no greater.
fn insert_sorted_vec(v: &mut Vec<Adjustment>, x: Adjustment)
    ensures
        final(v)@ == insert_sorted(old(v)@, x),
{
    let mut j = v.len();
    while j > 0 && !(v[j - 1].0 < x.0 || (v[j - 1].0 == x.0 && v[j - 1].1 <= x.1))
        invariant
            j <= v.len(),
            v@ == old(v)@,
            forall|i: int| j <= i < v.len() ==> !key_le(#[trigger] v@[i], x),
        decreases j,
    {
        j = j - 1;
    }
    proof {
        lemma_insert_sorted_at(v@, x, j as int, v@.len() as int);
        assert(v@.take(v@.len() as int) =~= v@);
        assert(v@.insert(j as int, x) =~= v@.take(j as int).push(x) + v@.subrange(
            j as int,
            v@.len() as int,
        ));
    }
    v.insert(j, x);
}

/// Sorts the adjustments by `(line, character)`, keeping the order of equal keys.
fn sort_adjustments(v: Vec<Adjustment>) -> (r: Vec<Adjustment>)
    ensures
        r@ == stable_sort(v@),
{
    let mut out: Vec<Adjustment> = Vec::new();
    for i in 0..v.len()
        invariant
            out@ == stable_sort(v@.take(i as int)),
    {
        assert(v@.take(i + 1).drop_last() =~= v@.take(i as int));
        assert(v@.take(i + 1).last() == v@[i as int]);
        insert_sorted_vec(&mut out, v[i]);
    }
    assert(v@.take(v@.len() as int) =~= v@);
    out
}

proof fn lemma_line_fold_prefix(adjs: Seq<Adjustment>, p: Position, k: int, n: int)
    requires
        0 <= k <= n,
        line_fold(adjs, p, n) is Some,
    ensures
        line_fold(adjs, p, k) is Some,
    decreases n - k,
{
    if k < n {
        lemma_line_fold_prefix(adjs, p, k + 1, n);
    }
}

proof fn lemma_char_fold_prefix(adjs: Seq<Adjustment>, p: Position, k: int, n: int)
    requires
        0 <= k <= n,
        char_fold(adjs, p, n) is Some,
    ensures
        char_fold(adjs, p, k) is Some,
    decreases n - k,
{
    if k < n {
        lemma_char_fold_prefix(adjs, p, k + 1, n);
    }
}

impl PositionTracker {
    /// Creates a tracker from a sequence of document changes.
    pub fn new(changes: &[TextDocumentContentChangeEvent]) -> (r: Self)
        requires
            changes_ok(changes@),
        ensures
            r@ == spec_tracker(changes@),
    {
        let mut line_adjustments: Vec<Adjustment> = Vec::new();
        let mut char_adjustments: Vec<Adjustment> = Vec::new();
        let mut replacements: Vec<(Range, String)> = Vec::new();

        for i in 0..changes.len()
            invariant
                changes_ok(changes@),
                line_adjustments@ == raw_line_adjustments(changes@.take(i as int)),
                char_adjustments@ == raw_char_adjustments(changes@.take(i as int)),
                replacements@.map_values(|r: (Range, String)| (r.0, r.1@)) == raw_replacements(
                    changes@.take(i as int),
                ),
        {
            let change = &changes[i];
            assert(changes@.take(i + 1).drop_last() =~= changes@.take(i as int));
            assert(changes@.take(i + 1).last() == changes@[i as int]);
            assert(change_ok(changes@[i as int]));
            let ghost old_reps = replacements@;
            if let Some(range) = &change.range {
                replacements.push((*range, change.text.clone()));
                assert(replacements@.map_values(|r: (Range, String)| (r.0, r.1@))
                    =~= old_reps.map_values(|r: (Range, String)| (r.0, r.1@)).push(
                    (*range, change.text@),
                ));

                // line changes
                let newlines = newline_count(change.text.as_str());
                let lines_added = newlines as i32;
                let lines_removed = (range.end.line - range.start.line) as i32;
                let net_line_change = lines_added - lines_removed;
                if net_line_change != 0 {
                    line_adjustments.push((range.start.line, range.start.character, net_line_change));
                }

                // character changes: same line only, and only without line breaks
                if range.start.line == range.end.line && newlines == 0 {
                    let chars_added = change.text.as_str().len() as i32;
                    let chars_removed = (range.end.character - range.start.character) as i32;
                    let net_char_change = chars_added - chars_removed;
                    if net_char_change != 0 {
                        char_adjustments.push((range.start.line, range.end.character, net_char_change));
                    }
                }
            } else {
                assert(replacements@.map_values(|r: (Range, String)| (r.0, r.1@))
                    =~= old_reps.map_values(|r: (Range, String)| (r.0, r.1@)));
            }
        }
        assert(changes@.take(changes@.len() as int) =~= changes@);

        let line_adjustments = sort_adjustments(line_adjustments);
        let char_adjustments = sort_adjustments(char_adjustments);

        PositionTracker { line_adjustments, char_adjustments, replacements }
    }

    /// Whether the adjustment of `position` stays within the integer ranges.
    pub open spec fn adjusts(&self, position: Position) -> bool {
        spec_adjust(self@, position) is Some
    }

    /// Adjusts a single position based on the tracked changes; `None` where the
    /// adjusted position is not valid.
    pub fn adjust_position(&self, position: Position) -> (r: Option<Position>)
        requires
            self.adjusts(position),
        ensures
            r == spec_adjust(self@, position)->0,
    {
        let ghost t = self@;
        let n = self.line_adjustments.len();
        proof {
            lemma_line_fold_prefix(t.line_adjustments, position, 0, n as int);
        }
        // line adjustments
        let mut cumulative_line_change: i32 = 0;
        let mut k: usize = 0;
        while k < n
            invariant
                k <= n,
                n == self.line_adjustments@.len(),
                t == self@,
                line_fold(t.line_adjustments, position, n as int) is Some,
                line_fold(t.line_adjustments, position, k as int) == Some(cumulative_line_change),
            decreases n - k,
        {
            proof {
                lemma_line_fold_prefix(t.line_adjustments, position, k + 1, n as int);
            }
            let (change_line, change_char, line_change) = self.line_adjustments[k];
            if line_change < 0 {
                let deletion_end_line = change_line + (-line_change) as u32;
                if position.line > deletion_end_line {
                    cumulative_line_change = cumulative_line_change + line_change;
                } else if position.line > change_line || (position.line == change_line
                    && position.character > change_char) {
                    cumulative_line_change = change_line as i32 - position.line as i32;
                }
            } else {
                if position.line > change_line || (position.line == change_line
                    && position.character >= change_char) {
                    cumulative_line_change = cumulative_line_change + line_change;
                }
            }
            k = k + 1;
        }

        let sum = position.line as i32 + cumulative_line_change;
        let new_line: u32 = if sum < 0 {
            0
        } else {
            sum as u32
        };
        let mut new_character = position.character;

        if new_line == position.line {
            // same-line adjustments
            let m = self.char_adjustments.len();
            proof {
                lemma_char_fold_prefix(t.char_adjustments, position, 0, m as int);
            }
            let mut cumulative_char_change: i32 = 0;
            let mut k: usize = 0;
            while k < m
                invariant
                    k <= m,
                    m == self.char_adjustments@.len(),
                    t == self@,
                    char_fold(t.char_adjustments, position, m as int) is Some,
                    char_fold(t.char_adjustments, position, k as int) == Some(
                        cumulative_char_change,
                    ),
                decreases m - k,
            {
                proof {
                    lemma_char_fold_prefix(t.char_adjustments, position, k + 1, m as int);
                }
                let (line, after_char, char_change) = self.char_adjustments[k];
                if line == position.line && position.character >= after_char {
                    cumulative_char_change = cumulative_char_change + char_change;
                }
                k = k + 1;
            }
            let csum = position.character as i32 + cumulative_char_change;
            new_character = if csum < 0 {
                0
            } else {
                csum as u32
            };
        } else if new_line < position.line {
            // the position moved to an earlier line: look for the edit that joined the lines
            let m = self.replacements.len();
            assert(merged_character(t.replacements, new_line, position, 0) is Some);
            let mut k: usize = 0;
            while k < m
                invariant_except_break
                    new_character == position.character,
                    merged_character(t.replacements, new_line, position, k as int)
                        == merged_character(t.replacements, new_line, position, 0),
                invariant
                    k <= m,
                    m == self.replacements@.len(),
                    t == self@,
                    new_line < position.line,
                    merged_character(t.replacements, new_line, position, 0) is Some,
                ensures
                    Some(new_character) == merged_character(t.replacements, new_line, position, 0),
                decreases m - k,
            {
                let (range, replacement_text) = (
                    self.replacements[k].0,
                    &self.replacements[k].1,
                );
                assert(t.replacements[k as int] == (range, replacement_text@));
                if range.start.line == new_line && range.end.line == position.line {
                    let chars_after_removed_part = if position.character > range.end.character {
                        position.character - range.end.character
                    } else {
                        0
                    };
                    new_character = range.start.character + replacement_text.as_str().len() as u32
                        + chars_after_removed_part;
                    break;
                }
                k = k + 1;
            }
        }
        let new_position = Position { line: new_line, character: new_character };
        if self.is_valid_position(&new_position) {
            Some(new_position)
        } else {
            None
        }
    }

    /// Whether every position of `positions` can be adjusted.
    pub open spec fn adjusts_all(&self, positions: Seq<Position>) -> bool {
        forall|i: int| 0 <= i < positions.len() ==> self.adjusts(#[trigger] positions[i])
    }

    /// Adjusts several positions, dropping those that end up invalid.
    pub fn adjust_positions(&self, positions: Vec<Position>) -> (r: Vec<Position>)
        requires
            self.adjusts_all(positions@),
        ensures
            r@ == spec_adjust_all(self@, positions@),
    {
        let mut out: Vec<Position> = Vec::new();
        for i in 0..positions.len()
            invariant
                self.adjusts_all(positions@),
                out@ == spec_adjust_all(self@, positions@.take(i as int)),
        {
            assert(positions@.take(i + 1).drop_last() =~= positions@.take(i as int));
            assert(positions@.take(i + 1).last() == positions@[i as int]);
            assert(self.adjusts(positions@[i as int]));
            if let Some(p) = self.adjust_position(positions[i]) {
                out.push(p);
            }
        }
        assert(positions@.take(positions@.len() as int) =~= positions@);
        out
    }

    /// Whether a position is valid.
    pub fn is_valid_position(&self, position: &Position) -> (r: bool)
        ensures
            r == spec_is_valid_position(*position),
    {
        position.line < u32::MAX && position.character < u32::MAX
    }
}


/// Every element of `insert_sorted(s, x)` is `x` or an element of `s`.
proof fn lemma_insert_sorted_elements(s: Seq<Adjustment>, x: Adjustment)
    ensures
        forall|a: Adjustment| #[trigger] insert_sorted(s, x).contains(a) ==> a == x || s.contains(a),
    decreases s.len(),
{
    if s.len() > 0 && !key_le(s.last(), x) {
        lemma_insert_sorted_elements(s.drop_last(), x);
        assert forall|a: Adjustment| #[trigger] insert_sorted(s, x).contains(a) implies a == x
            || s.contains(a) by {
            let t = insert_sorted(s.drop_last(), x);
            let i = choose|i: int| 0 <= i < t.push(s.last()).len() && t.push(s.last())[i] == a;
            if i < t.len() {
                assert(t.contains(a));
                if s.drop_last().contains(a) {
                    let j = choose|j: int| 0 <= j < s.drop_last().len() && s.drop_last()[j] == a;
                    assert(s[j] == a);
                }
            } else {
                assert(s[s.len() - 1] == a);
            }
        }
    } else if s.len() > 0 {
        assert forall|a: Adjustment| #[trigger] insert_sorted(s, x).contains(a) implies a == x
            || s.contains(a) by {
            let i = choose|i: int| 0 <= i < s.push(x).len() && s.push(x)[i] == a;
            if i < s.len() {
                assert(s[i] == a);
            }
        }
    }
}

/// Every element of the sorted sequence is an element of the sequence it was sorted from.
proof fn lemma_stable_sort_elements(s: Seq<Adjustment>)
    ensures
        forall|a: Adjustment| #[trigger] stable_sort(s).contains(a) ==> s.contains(a),
    decreases s.len(),
{
    if s.len() > 0 {
        lemma_stable_sort_elements(s.drop_last());
        lemma_insert_sorted_elements(stable_sort(s.drop_last()), s.last());
        assert forall|a: Adjustment| #[trigger] stable_sort(s).contains(a) implies s.contains(a) by {
            if a == s.last() {
                assert(s[s.len() - 1] == a);
            } else {
                assert(stable_sort(s.drop_last()).contains(a));
                let j = choose|j: int| 0 <= j < s.drop_last().len() && s.drop_last()[j] == a;
                assert(s[j] == a);
            }
        }
    }
}

/// The line adjustments of the edits start at the start lines of their ranges.
proof fn lemma_raw_line_starts(cs: Seq<TextDocumentContentChangeEvent>, a: Adjustment)
    requires
        raw_line_adjustments(cs).contains(a),
    ensures
        exists|i: int| 0 <= i < cs.len() && ((#[trigger] cs[i]).range matches Some(r) && r.start.line == a.0),
    decreases cs.len(),
{
    let prev = raw_line_adjustments(cs.drop_last());
    let last = raw_line_adjustments(cs) .skip(prev.len() as int);
    assert(raw_line_adjustments(cs) == prev + last);
    let k = choose|k: int| 0 <= k < raw_line_adjustments(cs).len() && raw_line_adjustments(cs)[k] == a;
    if k < prev.len() {
        assert(prev[k] == a);
        lemma_raw_line_starts(cs.drop_last(), a);
        let i = choose|i: int| 0 <= i < cs.drop_last().len() && ((#[trigger] cs.drop_last()[i]).range matches Some(r) && r.start.line == a.0);
        assert(cs[i] == cs.drop_last()[i]);
    } else {
        assert(cs[cs.len() - 1] == cs.last());
    }
}

/// The character adjustments of the edits are on the start lines of their ranges.
proof fn lemma_raw_char_starts(cs: Seq<TextDocumentContentChangeEvent>, a: Adjustment)
    requires
        raw_char_adjustments(cs).contains(a),
    ensures
        exists|i: int| 0 <= i < cs.len() && ((#[trigger] cs[i]).range matches Some(r) && r.start.line == a.0),
    decreases cs.len(),
{
    let prev = raw_char_adjustments(cs.drop_last());
    let k = choose|k: int| 0 <= k < raw_char_adjustments(cs).len() && raw_char_adjustments(cs)[k] == a;
    if k < prev.len() {
        assert(prev[k] == a);
        lemma_raw_char_starts(cs.drop_last(), a);
        let i = choose|i: int| 0 <= i < cs.drop_last().len() && ((#[trigger] cs.drop_last()[i]).range matches Some(r) && r.start.line == a.0);
        assert(cs[i] == cs.drop_last()[i]);
    } else {
        assert(cs[cs.len() - 1] == cs.last());
    }
}

proof fn lemma_line_fold_untouched(adjs: Seq<Adjustment>, p: Position, k: int)
    requires
        0 <= k <= adjs.len(),
        forall|i: int| 0 <= i < adjs.len() ==> (#[trigger] adjs[i]).0 > p.line,
        line_fold(adjs, p, k) is Some,
    ensures
        line_fold(adjs, p, k) == Some(0i32),
    decreases k,
{
    if k > 0 {
        lemma_line_fold_untouched(adjs, p, k - 1);
        assert(adjs[k - 1].0 > p.line);
    }
}

proof fn lemma_char_fold_untouched(adjs: Seq<Adjustment>, p: Position, k: int)
    requires
        0 <= k <= adjs.len(),
        forall|i: int| 0 <= i < adjs.len() ==> (#[trigger] adjs[i]).0 != p.line,
    ensures
        char_fold(adjs, p, k) == Some(0i32),
    decreases k,
{
    if k > 0 {
        lemma_char_fold_untouched(adjs, p, k - 1);
        assert(adjs[k - 1].0 != p.line);
    }
}

/// Edits that all start on lines after a position leave that position where it is
/// (it only becomes `None` where it was not a valid position to begin with).
pub proof fn law_later_edits_leave_position(cs: Seq<TextDocumentContentChangeEvent>, p: Position)
    requires
        changes_ok(cs),
        forall|i: int| 0 <= i < cs.len() ==> ((#[trigger] cs[i]).range matches Some(r) ==> r.start.line > p.line),
        spec_adjust(spec_tracker(cs), p) is Some,
        p.line <= i32::MAX,
        p.character <= i32::MAX,
    ensures
        spec_adjust(spec_tracker(cs), p) == Some(checked_position(p.line, p.character)),
{
    let t = spec_tracker(cs);
    lemma_stable_sort_elements(raw_line_adjustments(cs));
    lemma_stable_sort_elements(raw_char_adjustments(cs));
    assert forall|i: int| 0 <= i < t.line_adjustments.len() implies (#[trigger] t.line_adjustments[i]).0 > p.line by {
        let a = t.line_adjustments[i];
        assert(t.line_adjustments.contains(a));
        lemma_raw_line_starts(cs, a);
        let j = choose|j: int| 0 <= j < cs.len() && ((#[trigger] cs[j]).range matches Some(r) && r.start.line == a.0);
        assert(cs[j].range is Some);
    }
    assert forall|i: int| 0 <= i < t.char_adjustments.len() implies (#[trigger] t.char_adjustments[i]).0 != p.line by {
        let a = t.char_adjustments[i];
        assert(t.char_adjustments.contains(a));
        lemma_raw_char_starts(cs, a);
        let j = choose|j: int| 0 <= j < cs.len() && ((#[trigger] cs[j]).range matches Some(r) && r.start.line == a.0);
        assert(cs[j].range is Some);
    }
    lemma_line_fold_untouched(t.line_adjustments, p, t.line_adjustments.len() as int);
    lemma_char_fold_untouched(t.char_adjustments, p, t.char_adjustments.len() as int);
}

/// With no ranged edits, a position stays where it is.
pub proof fn law_no_edits_identity(cs: Seq<TextDocumentContentChangeEvent>, p: Position)
    requires
        forall|i: int| 0 <= i < cs.len() ==> (#[trigger] cs[i]).range is None,
        p.line <= i32::MAX,
        p.character <= i32::MAX,
    ensures
        spec_adjust(spec_tracker(cs), p) == Some(checked_position(p.line, p.character)),
{
    lemma_no_ranges_no_adjustments(cs);
}

proof fn lemma_no_ranges_no_adjustments(cs: Seq<TextDocumentContentChangeEvent>)
    requires
        forall|i: int| 0 <= i < cs.len() ==> (#[trigger] cs[i]).range is None,
    ensures
        raw_line_adjustments(cs) == Seq::<Adjustment>::empty(),
        raw_char_adjustments(cs) == Seq::<Adjustment>::empty(),
    decreases cs.len(),
{
    if cs.len() > 0 {
        assert forall|i: int| 0 <= i < cs.drop_last().len() implies (#[trigger] cs.drop_last()[i]).range is None by {
            assert(cs[i] == cs.drop_last()[i]);
        }
        lemma_no_ranges_no_adjustments(cs.drop_last());
        assert(cs[cs.len() - 1].range is None);
        assert(raw_line_adjustments(cs) =~= Seq::<Adjustment>::empty());
        assert(raw_char_adjustments(cs) =~= Seq::<Adjustment>::empty());
    }
}


/// Inserting text that holds `n > 0` line breaks on a line above a position moves
/// the position down by `n` lines and keeps its character.
pub proof fn law_line_breaks_above_move_down(c: TextDocumentContentChangeEvent, p: Position)
    requires
        change_ok(c),
        c.range matches Some(r) && r.start == r.end && r.start.line < p.line,
        count_newlines(c.text@) > 0,
        count_newlines(c.text@) <= i32::MAX,
        p.line <= i32::MAX,
        spec_adjust(spec_tracker(seq![c]), p) is Some,
    ensures
        spec_adjust(spec_tracker(seq![c]), p) == Some(
            checked_position((p.line + count_newlines(c.text@)) as u32, p.character),
        ),
{
    let cs = seq![c];
    let r = c.range->0;
    let n = count_newlines(c.text@);
    assert(cs.drop_last() =~= Seq::<TextDocumentContentChangeEvent>::empty());
    assert(cs.last() == c);
    assert(raw_line_adjustments(cs.drop_last()) == Seq::<Adjustment>::empty());
    assert(raw_char_adjustments(cs.drop_last()) == Seq::<Adjustment>::empty());
    assert(net_line_change(r, c.text@) == n);
    let a: Adjustment = (r.start.line, r.start.character, n as i32);
    assert(raw_line_adjustments(cs) =~= seq![a]);
    assert(seq![a].drop_last() =~= Seq::<Adjustment>::empty());
    assert(stable_sort(seq![a].drop_last()) == Seq::<Adjustment>::empty());
    assert(insert_sorted(Seq::<Adjustment>::empty(), a) == seq![a]);
    assert(stable_sort(seq![a]) =~= seq![a]);
    let t = spec_tracker(cs);
    assert(t.line_adjustments =~= seq![a]);
    assert(line_fold(t.line_adjustments, p, 0) == Some(0i32));
    assert(line_fold(t.line_adjustments, p, 1) == Some(n as i32));
}

/// Inserting text without line breaks on the line of a position, at or before its
/// character, moves the position right by the byte length of the text.
pub proof fn law_same_line_insert_moves_right(c: TextDocumentContentChangeEvent, p: Position)
    requires
        change_ok(c),
        c.range matches Some(r) && r.start == r.end && r.start.line == p.line
            && r.start.character <= p.character,
        count_newlines(c.text@) == 0,
        byte_len(c.text@) <= i32::MAX,
        p.line <= i32::MAX,
        p.character <= i32::MAX,
        spec_adjust(spec_tracker(seq![c]), p) is Some,
    ensures
        spec_adjust(spec_tracker(seq![c]), p) == Some(
            checked_position(p.line, (p.character + byte_len(c.text@)) as u32),
        ),
{
    let cs = seq![c];
    let r = c.range->0;
    let b = byte_len(c.text@);
    assert(cs.drop_last() =~= Seq::<TextDocumentContentChangeEvent>::empty());
    assert(cs.last() == c);
    assert(raw_line_adjustments(cs.drop_last()) == Seq::<Adjustment>::empty());
    assert(raw_char_adjustments(cs.drop_last()) == Seq::<Adjustment>::empty());
    assert(net_line_change(r, c.text@) == 0);
    assert(raw_line_adjustments(cs) =~= Seq::<Adjustment>::empty());
    let t = spec_tracker(cs);
    assert(t.line_adjustments =~= Seq::<Adjustment>::empty());
    assert(net_char_change(r, c.text@) == b);
    if b != 0 {
        let a: Adjustment = (r.start.line, r.end.character, b as i32);
        assert(raw_char_adjustments(cs) =~= seq![a]);
        assert(seq![a].drop_last() =~= Seq::<Adjustment>::empty());
        assert(stable_sort(seq![a].drop_last()) == Seq::<Adjustment>::empty());
        assert(insert_sorted(Seq::<Adjustment>::empty(), a) == seq![a]);
        assert(stable_sort(seq![a]) =~= seq![a]);
        assert(t.char_adjustments =~= seq![a]);
        assert(char_fold(t.char_adjustments, p, 0) == Some(0i32));
        assert(char_fold(t.char_adjustments, p, 1) == Some(b as i32));
    } else {
        assert(raw_char_adjustments(cs) =~= Seq::<Adjustment>::empty());
        assert(t.char_adjustments =~= Seq::<Adjustment>::empty());
    }
}


/// Deleting whole lines above a position (replacing a range that spans lines
/// `a` to `b`, with `b` above the position, by text without line breaks) moves
/// the position up by the `b - a` lines that went away and keeps its character.
pub proof fn law_deleted_lines_above_move_up(c: TextDocumentContentChangeEvent, p: Position)
    requires
        change_ok(c),
        c.range matches Some(r) && r.start.line < r.end.line && r.end.line < p.line,
        count_newlines(c.text@) == 0,
        p.line <= i32::MAX,
        spec_adjust(spec_tracker(seq![c]), p) is Some,
    ensures
        ({
            let r = c.range->0;
            spec_adjust(spec_tracker(seq![c]), p) == Some(
                checked_position((p.line - (r.end.line - r.start.line)) as u32, p.character),
            )
        }),
{
    let cs = seq![c];
    let r = c.range->0;
    let d = r.end.line - r.start.line;
    assert(cs.drop_last() =~= Seq::<TextDocumentContentChangeEvent>::empty());
    assert(cs.last() == c);
    assert(raw_line_adjustments(cs.drop_last()) == Seq::<Adjustment>::empty());
    assert(raw_char_adjustments(cs.drop_last()) == Seq::<Adjustment>::empty());
    assert(raw_replacements(cs.drop_last()) == Seq::<(Range, Seq<char>)>::empty());
    assert(net_line_change(r, c.text@) == -d);
    let a: Adjustment = (r.start.line, r.start.character, (-d) as i32);
    assert(raw_line_adjustments(cs) =~= seq![a]);
    assert(seq![a].drop_last() =~= Seq::<Adjustment>::empty());
    assert(stable_sort(seq![a].drop_last()) == Seq::<Adjustment>::empty());
    assert(insert_sorted(Seq::<Adjustment>::empty(), a) == seq![a]);
    assert(stable_sort(seq![a]) =~= seq![a]);
    let t = spec_tracker(cs);
    assert(t.line_adjustments =~= seq![a]);
    assert(raw_replacements(cs) =~= seq![(r, c.text@)]);
    assert(t.replacements =~= seq![(r, c.text@)]);
    assert(line_fold(t.line_adjustments, p, 0) == Some(0i32));
    assert(line_fold(t.line_adjustments, p, 1) == Some((-d) as i32));
    let new_line = (p.line - d) as u32;
    assert(merged_character(t.replacements, new_line, p, 1) == Some(p.character));
    assert(merged_character(t.replacements, new_line, p, 0) == Some(p.character));
}

/// A position on a line strictly inside a range of deleted lines (replaced by
/// text without line breaks) goes to the line where the deletion starts and
/// keeps its character.
pub proof fn law_position_in_deleted_lines_goes_to_their_start(c: TextDocumentContentChangeEvent, p: Position)
    requires
        change_ok(c),
        c.range matches Some(r) && r.start.line < p.line && p.line < r.end.line,
        count_newlines(c.text@) == 0,
        c.range->0.end.line <= i32::MAX,
        spec_adjust(spec_tracker(seq![c]), p) is Some,
    ensures
        spec_adjust(spec_tracker(seq![c]), p) == Some(checked_position(c.range->0.start.line, p.character)),
{
    let cs = seq![c];
    let r = c.range->0;
    let d = r.end.line - r.start.line;
    assert(cs.drop_last() =~= Seq::<TextDocumentContentChangeEvent>::empty());
    assert(cs.last() == c);
    assert(raw_line_adjustments(cs.drop_last()) == Seq::<Adjustment>::empty());
    assert(raw_replacements(cs.drop_last()) == Seq::<(Range, Seq<char>)>::empty());
    assert(net_line_change(r, c.text@) == -d);
    let a: Adjustment = (r.start.line, r.start.character, (-d) as i32);
    assert(raw_line_adjustments(cs) =~= seq![a]);
    assert(seq![a].drop_last() =~= Seq::<Adjustment>::empty());
    assert(stable_sort(seq![a].drop_last()) == Seq::<Adjustment>::empty());
    assert(insert_sorted(Seq::<Adjustment>::empty(), a) == seq![a]);
    assert(stable_sort(seq![a]) =~= seq![a]);
    let t = spec_tracker(cs);
    assert(t.line_adjustments =~= seq![a]);
    assert(raw_replacements(cs) =~= seq![(r, c.text@)]);
    assert(t.replacements =~= seq![(r, c.text@)]);
    assert(line_fold(t.line_adjustments, p, 0) == Some(0i32));
    assert(line_fold(t.line_adjustments, p, 1) == Some(((r.start.line as i32) - (p.line as i32)) as i32));
    assert(merged_character(t.replacements, r.start.line, p, 1) == Some(p.character));
    assert(merged_character(t.replacements, r.start.line, p, 0) == Some(p.character));
}

/// A position on the last line of a multi-line range that is replaced by text
/// without line breaks, at or after the end of the range, joins the line where
/// the range starts: after the characters kept before the range, the bytes of
/// the new text, and the characters that followed the range on its last line.
pub proof fn law_position_after_joined_lines_follows_the_new_text(c: TextDocumentContentChangeEvent, p: Position)
    requires
        change_ok(c),
        c.range matches Some(r) && r.start.line < r.end.line && p.line == r.end.line && r.end.character
            <= p.character,
        count_newlines(c.text@) == 0,
        byte_len(c.text@) <= u32::MAX,
        p.line <= i32::MAX,
        spec_adjust(spec_tracker(seq![c]), p) is Some,
    ensures
        ({
            let r = c.range->0;
            spec_adjust(spec_tracker(seq![c]), p) == Some(
                checked_position(
                    r.start.line,
                    (r.start.character + byte_len(c.text@) + (p.character - r.end.character)) as u32,
                ),
            )
        }),
{
    let cs = seq![c];
    let r = c.range->0;
    let d = r.end.line - r.start.line;
    assert(cs.drop_last() =~= Seq::<TextDocumentContentChangeEvent>::empty());
    assert(cs.last() == c);
    assert(raw_line_adjustments(cs.drop_last()) == Seq::<Adjustment>::empty());
    assert(raw_replacements(cs.drop_last()) == Seq::<(Range, Seq<char>)>::empty());
    assert(net_line_change(r, c.text@) == -d);
    let a: Adjustment = (r.start.line, r.start.character, (-d) as i32);
    assert(raw_line_adjustments(cs) =~= seq![a]);
    assert(seq![a].drop_last() =~= Seq::<Adjustment>::empty());
    assert(stable_sort(seq![a].drop_last()) == Seq::<Adjustment>::empty());
    assert(insert_sorted(Seq::<Adjustment>::empty(), a) == seq![a]);
    assert(stable_sort(seq![a]) =~= seq![a]);
    let t = spec_tracker(cs);
    assert(t.line_adjustments =~= seq![a]);
    assert(raw_replacements(cs) =~= seq![(r, c.text@)]);
    assert(t.replacements =~= seq![(r, c.text@)]);
    assert(line_fold(t.line_adjustments, p, 0) == Some(0i32));
    assert(line_fold(t.line_adjustments, p, 1) == Some(((r.start.line as i32) - (p.line as i32)) as i32));
    let b = byte_len(c.text@);
    assert(((b as usize) as u32) == b);
    let m = merged_character(t.replacements, r.start.line, p, 0);
    assert(t.replacements[0] == (r, c.text@));
    assert(m is Some);
    assert(m == Some((r.start.character + b + (p.character - r.end.character)) as u32));
}

/// `position` lies in `range`, both ends included.
pub open spec fn spec_in_range(position: Position, range: Range) -> bool {
    &&& (position.line > range.start.line || (position.line == range.start.line
        && position.character >= range.start.character))
    &&& (position.line < range.end.line || (position.line == range.end.line && position.character
        <= range.end.character))
}

/// Whether `position` lies in `range`, both ends included (the filter for the
/// inlay hints that an editor asks for).
pub fn position_in_range(position: &Position, range: &Range) -> (r: bool)
    ensures
        r == spec_in_range(*position, *range),
{
    (position.line > range.start.line || (position.line == range.start.line && position.character
        >= range.start.character)) && (position.line < range.end.line || (position.line
        == range.end.line && position.character <= range.end.character))
}

} // verus!
