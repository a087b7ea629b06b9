//! Decisions the language server makes on plain values: which inlay hints to
//! keep, which code lenses a file gets, and what code object a completion after
//! a `.` asks about.
use vstd::prelude::*;

use crate::position_tracker::Range;
use crate::symbol_indexer::parser::chars_of;
use crate::text::push_char;

verus! {

/// Whether hints computed for version `incoming` of a file replace the hints
/// held for it: always where none are held (`current` is `None`), otherwise
/// where the incoming version is the same or newer.
pub fn replaces_hints(current: Option<i32>, incoming: i32) -> (r: bool)
    ensures
        r == match current {
            None => true,
            Some(v) => incoming >= v,
        },
{
    match current {
        None => true,
        Some(v) => incoming >= v,
    }
}

/// A code lens: a command shown at a range of a file.
#[derive(Clone, Debug)]
pub struct CodeLens {
    pub range: Range,
    pub title: String,
    pub command: String,
    /// the file path, then the function name
    pub arguments: Vec<String>,
}

/// A top-level code object of a file: its name, whether it is a function, and
/// the range of its declaration.
#[derive(Clone, Debug)]
pub struct CodeObject {
    pub name: String,
    pub is_function: bool,
    pub range: Range,
}

/// `s` begins with `prefix`.
pub open spec fn begins_with(s: Seq<char>, prefix: Seq<char>) -> bool {
    prefix.len() <= s.len() && s.take(prefix.len() as int) == prefix
}

/// The code objects among `objects` that are test functions (functions whose
/// name begins with `test_`), in order.
pub open spec fn test_functions(objects: Seq<CodeObject>) -> Seq<CodeObject>
    decreases objects.len(),
{
    if objects.len() == 0 {
        seq![]
    } else {
        let o = objects.last();
        test_functions(objects.drop_last()) + if o.is_function && begins_with(o.name@, "test_"@) {
            seq![o]
        } else {
            seq![]
        }
    }
}

/// `l` is a lens at `range` titled `title` that runs `command` on the file
/// `path` and the function `name`.
pub open spec fn lens_is(l: CodeLens, range: Range, title: Seq<char>, command: Seq<char>, path: Seq<char>, name: Seq<char>) -> bool {
    &&& l.range == range
    &&& l.title@ == title
    &&& l.command@ == command
    &&& l.arguments@.len() == 2
    &&& l.arguments@[0]@ == path
    &&& l.arguments@[1]@ == name
}

fn lens(range: Range, title: &str, command: &str, path: &str, name: &str) -> (r: CodeLens)
    ensures
        lens_is(r, range, title@, command@, path@, name@),
{
    let arguments = vec![path.to_owned(), name.to_owned()];
    CodeLens { range, title: title.to_owned(), command: command.to_owned(), arguments }
}

/// Whether `s` begins with `test_`.
fn begins_with_test(s: &str) -> (r: bool)
    ensures
        r == begins_with(s@, "test_"@),
{
    let cs = chars_of(s);
    let p: Vec<char> = vec!['t', 'e', 's', 't', '_'];
    proof {
        reveal_strlit("test_");
        assert(p@ =~= "test_"@);
    }
    if cs.len() < 5 {
        return false;
    }
    let mut i: usize = 0;
    while i < 5
        invariant
            i <= 5,
            cs@ == s@,
            cs@.len() >= 5,
            p@ == "test_"@,
            p@.len() == 5,
            forall|k: int| 0 <= k < i ==> cs@[k] == p@[k],
        decreases 5 - i,
    {
        if cs[i] != p[i] {
            assert(cs@.take(5)[i as int] != p@[i as int]);
            return false;
        }
        i = i + 1;
    }
    assert(cs@.take(5) =~= p@);
    true
}

/// The code lenses of the file at `path`: for each test function among
/// `objects`, in order, a lens that runs it and one that debugs it, both at the
/// range of its declaration.
pub fn test_lenses(objects: &Vec<CodeObject>, path: &str) -> (r: Vec<CodeLens>)
    ensures
        r@.len() == 2 * test_functions(objects@).len(),
        forall|k: int|
            0 <= k < test_functions(objects@).len() ==> {
                let f = #[trigger] test_functions(objects@)[k];
                &&& lens_is(r@[2 * k], f.range, "run test"@, "sol.test.file"@, path@, f.name@)
                &&& lens_is(r@[2 * k + 1], f.range, "debug test"@, "sol.debug.file"@, path@, f.name@)
            },
{
    let mut lenses: Vec<CodeLens> = Vec::new();
    let n = objects.len();
    let mut i: usize = 0;
    assert(objects@.take(0) =~= Seq::<CodeObject>::empty());
    while i < n
        invariant
            n == objects@.len(),
            i <= n,
            lenses@.len() == 2 * test_functions(objects@.take(i as int)).len(),
            forall|k: int|
                0 <= k < test_functions(objects@.take(i as int)).len() ==> {
                    let f = #[trigger] test_functions(objects@.take(i as int))[k];
                    &&& lens_is(lenses@[2 * k], f.range, "run test"@, "sol.test.file"@, path@, f.name@)
                    &&& lens_is(lenses@[2 * k + 1], f.range, "debug test"@, "sol.debug.file"@, path@, f.name@)
                },
        decreases n - i,
    {
        let ghost before = test_functions(objects@.take(i as int));
        let ghost old_lenses = lenses@;
        assert(objects@.take(i + 1).drop_last() =~= objects@.take(i as int));
        assert(objects@.take(i + 1).last() == objects@[i as int]);
        let o = &objects[i];
        if o.is_function && begins_with_test(o.name.as_str()) {
            lenses.push(lens(o.range, "run test", "sol.test.file", path, o.name.as_str()));
            lenses.push(lens(o.range, "debug test", "sol.debug.file", path, o.name.as_str()));
            let ghost after = test_functions(objects@.take(i + 1));
            assert(after =~= before.push(*o));
            assert forall|k: int| 0 <= k < after.len() implies {
                let f = #[trigger] after[k];
                &&& lens_is(lenses@[2 * k], f.range, "run test"@, "sol.test.file"@, path@, f.name@)
                &&& lens_is(lenses@[2 * k + 1], f.range, "debug test"@, "sol.debug.file"@, path@, f.name@)
            } by {
                if k < before.len() {
                    assert(after[k] == before[k]);
                    assert(lenses@[2 * k] == old_lenses[2 * k]);
                    assert(lenses@[2 * k + 1] == old_lenses[2 * k + 1]);
                }
            }
        } else {
            assert(test_functions(objects@.take(i + 1)) =~= before);
        }
        i = i + 1;
    }
    assert(objects@.take(n as int) =~= objects@);
    lenses
}

/// An ASCII letter or digit.
pub open spec fn is_ascii_alnum(c: char) -> bool {
    ||| 'A' <= c <= 'Z'
    ||| 'a' <= c <= 'z'
    ||| '0' <= c <= '9'
}

/// A character of a dotted code object: an ASCII letter or digit, or `.`.
pub open spec fn is_object_char(c: char) -> bool {
    is_ascii_alnum(c) || c == '.'
}

fn is_ascii_alnum_exec(c: char) -> (r: bool)
    ensures
        r == is_ascii_alnum(c),
{
    ('A' <= c && c <= 'Z') || ('a' <= c && c <= 'z') || ('0' <= c && c <= '9')
}

/// `start` is where the code object ends before position `end` of `b` begins:
/// from there to `end` every character is an ASCII letter, digit or `.`; the
/// character before it is not (or it opens the text, or it is a `.` that opens
/// the text and is left out); and the object starts with a letter or digit where
/// it starts the text.
pub open spec fn object_start(b: Seq<char>, end: int, start: int) -> bool {
    &&& 0 <= start <= end
    &&& forall|k: int| start <= k < end ==> is_object_char(#[trigger] b[k])
    &&& start == 0 || !is_object_char(b[start - 1]) || (start == 1 && b[0] == '.')
    &&& start == 0 ==> is_ascii_alnum(b[0])
}

/// The code object that a completion triggered at `offset` of `text` asks about
/// (the `.` that triggered it stands just before `offset`): the longest run of
/// ASCII letters, digits and dots that ends right before that `.`, where a `.`
/// that opens the text is left out.
pub fn completion_object(text: &str, offset: usize) -> (r: String)
    requires
        1 <= offset <= text@.len() + 1,
        text@.len() >= 1,
        offset == 1 ==> is_ascii_alnum(text@[0]),
    ensures
        exists|start: int|
            #[trigger] object_start(text@, offset - 1, start) && r@ == text@.subrange(start, offset - 1),
{
    let b = chars_of(text);
    let end = offset - 1;
    let mut i: usize = end;
    while i > 0 && (is_ascii_alnum_exec(b[i - 1]) || b[i - 1] == '.')
        invariant
            b@ == text@,
            i <= end,
            end <= b@.len(),
            b@.len() >= 1,
            end == offset - 1,
            end == 0 ==> is_ascii_alnum(b@[0]),
            forall|k: int| i <= k < end ==> is_object_char(#[trigger] b@[k]),
        decreases i,
    {
        i = i - 1;
    }
    if i == 0 && !is_ascii_alnum_exec(b[0]) {
        i = 1;
    }
    let mut r = String::new();
    let mut j: usize = i;
    assert(r@ =~= text@.subrange(i as int, i as int));
    while j < end
        invariant
            b@ == text@,
            i <= j <= end,
            end <= b@.len(),
            r@ == text@.subrange(i as int, j as int),
        decreases end - j,
    {
        push_char(&mut r, b[j]);
        j = j + 1;
        assert(r@ =~= text@.subrange(i as int, j as int));
    }
    assert(object_start(text@, end as int, i as int));
    r
}

} // verus!
