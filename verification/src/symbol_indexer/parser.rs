//! Finds the contract declarations of a Solidity source text.
//!
//! A declaration starts at the beginning of a line: optional white space, an
//! optional `abstract` keyword followed by white space, the `contract` keyword,
//! white space, and the contract name (`[A-Za-z_][A-Za-z0-9_]*`). After the name
//! it runs over optional white space, an optional inheritance list
//! (`is`, white space, and everything up to the next `{`), and an optional `{`.
//! Declarations are found left to right; the search for the next one resumes
//! where the previous one ends. A declaration is reported with the number of
//! lines of the text before its start.
use vstd::prelude::*;

use crate::position_tracker::count_newlines;
use crate::text::push_char;

verus! {

/// A contract name and the line of its declaration.
#[derive(Clone, Debug)]
pub struct ExtractedSymbol {
    pub name: String,
    pub line: usize,
}

/// Finds contract declarations in Solidity sources.
#[derive(Clone, Debug)]
pub struct ContractParser {}

/// Unicode white space (the `White_Space` property).
pub open spec fn is_space(c: char) -> bool {
    let u = c as u32;
    ||| 9 <= u <= 13
    ||| u == 32
    ||| u == 0x85
    ||| u == 0xA0
    ||| u == 0x1680
    ||| 0x2000 <= u <= 0x200A
    ||| u == 0x2028
    ||| u == 0x2029
    ||| u == 0x202F
    ||| u == 0x205F
    ||| u == 0x3000
}

pub open spec fn is_ident_start(c: char) -> bool {
    ||| 'A' <= c <= 'Z'
    ||| 'a' <= c <= 'z'
    ||| c == '_'
}

pub open spec fn is_ident_char(c: char) -> bool {
    is_ident_start(c) || ('0' <= c <= '9')
}

/// The first index from `i` on that is not white space (or the end).
pub open spec fn skip_space(s: Seq<char>, i: int) -> int
    decreases s.len() - i,
{
    if 0 <= i < s.len() && is_space(s[i]) {
        skip_space(s, i + 1)
    } else {
        i
    }
}

/// The first index from `i` on that is not an identifier character (or the end).
pub open spec fn skip_ident(s: Seq<char>, i: int) -> int
    decreases s.len() - i,
{
    if 0 <= i < s.len() && is_ident_char(s[i]) {
        skip_ident(s, i + 1)
    } else {
        i
    }
}

/// The first index from `i` on that holds `{` (or the end).
pub open spec fn skip_to_brace(s: Seq<char>, i: int) -> int
    decreases s.len() - i,
{
    if 0 <= i < s.len() && s[i] != '{' {
        skip_to_brace(s, i + 1)
    } else {
        i
    }
}

/// `w` occurs in `s` at `i`.
pub open spec fn word_at(s: Seq<char>, i: int, w: Seq<char>) -> bool {
    0 <= i && i + w.len() <= s.len() && s.subrange(i, i + w.len()) == w
}

pub open spec fn contract_word() -> Seq<char> {
    seq!['c', 'o', 'n', 't', 'r', 'a', 'c', 't']
}

pub open spec fn abstract_word() -> Seq<char> {
    seq!['a', 'b', 's', 't', 'r', 'a', 'c', 't']
}

pub open spec fn is_word() -> Seq<char> {
    seq!['i', 's']
}

/// Where the name starts after the keyword at `q`.
pub open spec fn name_start(s: Seq<char>, q: int) -> int {
    skip_space(s, q + 8)
}

/// `contract`, white space and the first character of a name occur at `q`.
pub open spec fn contract_decl_at(s: Seq<char>, q: int) -> bool {
    &&& word_at(s, q, contract_word())
    &&& name_start(s, q) > q + 8
    &&& name_start(s, q) < s.len()
    &&& is_ident_start(s[name_start(s, q)])
}

/// The index of the `contract` keyword of a declaration starting at `p`.
pub open spec fn keyword_index(s: Seq<char>, p: int) -> Option<int> {
    let q = skip_space(s, p);
    if word_at(s, q, abstract_word()) && skip_space(s, q + 8) > q + 8 && contract_decl_at(
        s,
        skip_space(s, q + 8),
    ) {
        Some(skip_space(s, q + 8))
    } else if contract_decl_at(s, q) {
        Some(q)
    } else {
        None
    }
}

pub open spec fn is_line_start(s: Seq<char>, p: int) -> bool {
    p == 0 || (0 < p <= s.len() && s[p - 1] == '\n')
}

/// A declaration starts at `p`.
pub open spec fn decl_at(s: Seq<char>, p: int) -> bool {
    0 <= p < s.len() && is_line_start(s, p) && keyword_index(s, p) is Some
}

/// The `[start, end)` indices of the name of the declaration at `p`.
pub open spec fn name_bounds(s: Seq<char>, p: int) -> (int, int) {
    let r = name_start(s, keyword_index(s, p)->0);
    (r, skip_ident(s, r + 1))
}

/// The end of the declaration at `p`, after the optional inheritance list and `{`.
pub open spec fn decl_end(s: Seq<char>, p: int) -> int {
    let t = skip_space(s, name_bounds(s, p).1);
    let v = if word_at(s, t, is_word()) && skip_space(s, t + 2) > t + 2 {
        skip_to_brace(s, skip_space(s, t + 2))
    } else {
        t
    };
    if v < s.len() && s[v] == '{' {
        v + 1
    } else {
        v
    }
}

/// The number of lines of `t`, as `str::lines` counts them.
pub open spec fn line_count(t: Seq<char>) -> nat {
    count_newlines(t) + if t.len() > 0 && t.last() != '\n' {
        1nat
    } else {
        0nat
    }
}

/// The declarations found from index `e` on: `(name, line)` of each.
pub open spec fn contracts_from(s: Seq<char>, e: int) -> Seq<(Seq<char>, nat)>
    decreases s.len() - e,
    via contracts_from_decreases
{
    if e < 0 || e >= s.len() {
        seq![]
    } else if decl_at(s, e) {
        let (a, b) = name_bounds(s, e);
        seq![(s.subrange(a, b), line_count(s.take(e)))] + contracts_from(s, decl_end(s, e))
    } else {
        contracts_from(s, e + 1)
    }
}

proof fn lemma_skip_space_bounds(s: Seq<char>, i: int)
    requires
        0 <= i <= s.len(),
    ensures
        i <= skip_space(s, i) <= s.len(),
        skip_space(s, i) < s.len() ==> !is_space(s[skip_space(s, i)]),
        forall|k: int| i <= k < skip_space(s, i) ==> is_space(#[trigger] s[k]),
    decreases s.len() - i,
{
    if i < s.len() && is_space(s[i]) {
        lemma_skip_space_bounds(s, i + 1);
    }
}

proof fn lemma_skip_ident_bounds(s: Seq<char>, i: int)
    requires
        0 <= i <= s.len(),
    ensures
        i <= skip_ident(s, i) <= s.len(),
    decreases s.len() - i,
{
    if i < s.len() && is_ident_char(s[i]) {
        lemma_skip_ident_bounds(s, i + 1);
    }
}

proof fn lemma_skip_to_brace_bounds(s: Seq<char>, i: int)
    requires
        0 <= i <= s.len(),
    ensures
        i <= skip_to_brace(s, i) <= s.len(),
    decreases s.len() - i,
{
    if i < s.len() && s[i] != '{' {
        lemma_skip_to_brace_bounds(s, i + 1);
    }
}

/// A declaration at `p` ends after `p` and within the text; its name lies
/// within it.
proof fn lemma_decl_bounds(s: Seq<char>, p: int)
    requires
        decl_at(s, p),
    ensures
        p < name_bounds(s, p).0 < name_bounds(s, p).1 <= decl_end(s, p) <= s.len(),
{
    lemma_skip_space_bounds(s, p);
    let q = skip_space(s, p);
    if word_at(s, q, abstract_word()) && q + 8 <= s.len() {
        lemma_skip_space_bounds(s, q + 8);
    }
    let k = keyword_index(s, p)->0;
    assert(k + 8 <= s.len());
    lemma_skip_space_bounds(s, k + 8);
    let r = name_start(s, k);
    lemma_skip_ident_bounds(s, r + 1);
    let e = skip_ident(s, r + 1);
    lemma_skip_space_bounds(s, e);
    let t = skip_space(s, e);
    if word_at(s, t, is_word()) && skip_space(s, t + 2) > t + 2 {
        lemma_skip_space_bounds(s, t + 2);
        lemma_skip_to_brace_bounds(s, skip_space(s, t + 2));
    }
}

#[via_fn]
proof fn contracts_from_decreases(s: Seq<char>, e: int) {
    if 0 <= e < s.len() && decl_at(s, e) {
        lemma_decl_bounds(s, e);
    }
}

fn is_space_char(c: char) -> (r: bool)
    ensures
        r == is_space(c),
{
    let u = c as u32;
    (9 <= u && u <= 13) || u == 32 || u == 0x85 || u == 0xA0 || u == 0x1680 || (0x2000 <= u && u
        <= 0x200A) || u == 0x2028 || u == 0x2029 || u == 0x202F || u == 0x205F || u == 0x3000
}

fn is_ident_start_char(c: char) -> (r: bool)
    ensures
        r == is_ident_start(c),
{
    ('A' <= c && c <= 'Z') || ('a' <= c && c <= 'z') || c == '_'
}

fn is_ident_char_exec(c: char) -> (r: bool)
    ensures
        r == is_ident_char(c),
{
    is_ident_start_char(c) || ('0' <= c && c <= '9')
}

fn skip_space_exec(s: &Vec<char>, i: usize) -> (r: usize)
    requires
        i <= s@.len(),
    ensures
        r == skip_space(s@, i as int),
{
    let mut j = i;
    while j < s.len() && is_space_char(s[j])
        invariant
            i <= j <= s@.len(),
            skip_space(s@, j as int) == skip_space(s@, i as int),
        decreases s@.len() - j,
    {
        j = j + 1;
    }
    j
}

fn skip_ident_exec(s: &Vec<char>, i: usize) -> (r: usize)
    requires
        i <= s@.len(),
    ensures
        r == skip_ident(s@, i as int),
{
    let mut j = i;
    while j < s.len() && is_ident_char_exec(s[j])
        invariant
            i <= j <= s@.len(),
            skip_ident(s@, j as int) == skip_ident(s@, i as int),
        decreases s@.len() - j,
    {
        j = j + 1;
    }
    j
}

fn skip_to_brace_exec(s: &Vec<char>, i: usize) -> (r: usize)
    requires
        i <= s@.len(),
    ensures
        r == skip_to_brace(s@, i as int),
{
    let mut j = i;
    while j < s.len() && s[j] != '{'
        invariant
            i <= j <= s@.len(),
            skip_to_brace(s@, j as int) == skip_to_brace(s@, i as int),
        decreases s@.len() - j,
    {
        j = j + 1;
    }
    j
}

/// Whether `w` occurs in `s` at `i`.
fn word_at_exec(s: &Vec<char>, i: usize, w: &Vec<char>) -> (r: bool)
    requires
        i <= s@.len(),
    ensures
        r == word_at(s@, i as int, w@),
{
    let slen = s.len();
    if w.len() > slen - i {
        return false;
    }
    assert(i + w@.len() <= slen);
    let mut k: usize = 0;
    while k < w.len()
        invariant
            i + w@.len() <= slen,
            slen == s@.len(),
            k <= w@.len(),
            forall|m: int| 0 <= m < k ==> s@[i + m] == w@[m],
        decreases w@.len() - k,
    {
        if s[i + k] != w[k] {
            assert(s@.subrange(i as int, i + w@.len())[k as int] != w@[k as int]);
            return false;
        }
        k = k + 1;
    }
    assert(s@.subrange(i as int, i + w@.len()) =~= w@);
    true
}

pub(crate) fn chars_of(t: &str) -> (r: Vec<char>)
    ensures
        r@ == t@,
{
    let mut v: Vec<char> = Vec::new();
    for c in it: t.chars()
        invariant
            it.seq() == t@,
            v@ == t@.take(it.index() as int),
    {
        assert(t@.take(it.index() + 1) =~= t@.take(it.index() as int).push(c));
        v.push(c);
    }
    assert(t@.take(t@.len() as int) =~= t@);
    v
}

proof fn lemma_count_newlines_le(t: Seq<char>)
    ensures
        count_newlines(t) <= t.len(),
    decreases t.len(),
{
    if t.len() > 0 {
        lemma_count_newlines_le(t.drop_last());
    }
}

/// The number of lines of `s` before index `p`.
fn lines_before(s: &Vec<char>, p: usize) -> (r: usize)
    requires
        p <= s@.len(),
    ensures
        r == line_count(s@.take(p as int)),
{
    let mut n: usize = 0;
    let mut k: usize = 0;
    while k < p
        invariant
            p <= s@.len(),
            k <= p,
            n == count_newlines(s@.take(k as int)),
            n <= k,
        decreases p - k,
    {
        assert(s@.take(k + 1).drop_last() =~= s@.take(k as int));
        if s[k] == '\n' {
            n = n + 1;
        }
        k = k + 1;
    }
    if p > 0 && s[p - 1] != '\n' {
        proof {
            assert(s@.take(p as int).drop_last() =~= s@.take(p - 1));
            lemma_count_newlines_le(s@.take(p - 1));
        }
        n + 1
    } else {
        n
    }
}

impl ContractParser {
    pub fn new() -> (r: Self) {
        ContractParser {  }
    }

    /// Whether a declaration starts at `p`, and if so the bounds of its name and
    /// its end.
    fn declaration_at(
        &self,
        s: &Vec<char>,
        p: usize,
        contract_kw: &Vec<char>,
        abstract_kw: &Vec<char>,
        is_kw: &Vec<char>,
    ) -> (r: Option<(usize, usize, usize)>)
        requires
            p < s@.len(),
            contract_kw@ == contract_word(),
            abstract_kw@ == abstract_word(),
            is_kw@ == is_word(),
        ensures
            r is Some <==> decl_at(s@, p as int),
            r matches Some((a, b, e)) ==> a == name_bounds(s@, p as int).0 && b == name_bounds(
                s@,
                p as int,
            ).1 && e == decl_end(s@, p as int),
    {
        let ghost sv = s@;
        let slen = s.len();
        assert(sv.len() == slen);
        if !(p == 0 || s[p - 1] == '\n') {
            return None;
        }
        let q = skip_space_exec(s, p);
        proof {
            lemma_skip_space_bounds(sv, p as int);
        }
        let mut kw: Option<usize> = None;
        assert(abstract_word().len() == 8 && contract_word().len() == 8 && is_word().len() == 2);
        if word_at_exec(s, q, abstract_kw) {
            let q2 = skip_space_exec(s, q + 8);
            proof {
                lemma_skip_space_bounds(sv, q + 8);
            }
            if q2 > q + 8 && self.contract_at(s, q2, contract_kw) {
                kw = Some(q2);
            }
        }
        if kw.is_none() && self.contract_at(s, q, contract_kw) {
            kw = Some(q);
        }
        assert(kw matches Some(k) ==> keyword_index(sv, p as int) == Some(k as int));
        assert(kw is None ==> keyword_index(sv, p as int) is None);
        match kw {
            None => None,
            Some(k) => {
                proof {
                    lemma_decl_bounds(sv, p as int);
                }
                let a = skip_space_exec(s, k + 8);
                let b = skip_ident_exec(s, a + 1);
                let t = skip_space_exec(s, b);
                proof {
                    lemma_skip_space_bounds(sv, b as int);
                }
                let mut v = t;
                assert(is_word().len() == 2);
                if word_at_exec(s, t, is_kw) {
                    let t2 = skip_space_exec(s, t + 2);
                    if t2 > t + 2 {
                        proof {
                            lemma_skip_space_bounds(sv, t + 2);
                        }
                        v = skip_to_brace_exec(s, t2);
                    }
                }
                proof {
                    if word_at(sv, t as int, is_word()) && skip_space(sv, t + 2) > t + 2 {
                        lemma_skip_to_brace_bounds(sv, skip_space(sv, t + 2));
                    }
                }
                let e = if v < s.len() && s[v] == '{' {
                    v + 1
                } else {
                    v
                };
                Some((a, b, e))
            },
        }
    }

    /// Whether `contract`, white space and the first character of a name occur at `q`.
    fn contract_at(&self, s: &Vec<char>, q: usize, contract_kw: &Vec<char>) -> (r: bool)
        requires
            q <= s@.len(),
            contract_kw@ == contract_word(),
        ensures
            r == contract_decl_at(s@, q as int),
    {
        let slen = s.len();
        if !word_at_exec(s, q, contract_kw) {
            return false;
        }
        assert(contract_word().len() == 8);
        let r = skip_space_exec(s, q + 8);
        r > q + 8 && r < s.len() && is_ident_start_char(s[r])
    }

    /// The contract declarations of `content`, in order: the name of each and the
    /// number of lines before where its declaration starts.
    pub fn extract_contracts(&self, content: &str) -> (r: Vec<ExtractedSymbol>)
        ensures
            r@.len() == contracts_from(content@, 0).len(),
            forall|k: int|
                0 <= k < r@.len() ==> (#[trigger] r@[k]).name@ == contracts_from(content@, 0)[k].0
                    && r@[k].line == contracts_from(content@, 0)[k].1,
    {
        let s = chars_of(content);
        let contract_kw: Vec<char> = vec!['c', 'o', 'n', 't', 'r', 'a', 'c', 't'];
        let abstract_kw: Vec<char> = vec!['a', 'b', 's', 't', 'r', 'a', 'c', 't'];
        let is_kw: Vec<char> = vec!['i', 's'];
        assert(contract_kw@ =~= contract_word());
        assert(abstract_kw@ =~= abstract_word());
        assert(is_kw@ =~= is_word());
        let ghost all = contracts_from(s@, 0);

        let mut contracts: Vec<ExtractedSymbol> = Vec::new();
        let mut pos: usize = 0;
        while pos < s.len()
            invariant
                s@ == content@,
                contract_kw@ == contract_word(),
                abstract_kw@ == abstract_word(),
                is_kw@ == is_word(),
                pos <= s@.len(),
                all == contracts_from(s@, 0),
                all == ({
                    let done = contracts@.map_values(|x: ExtractedSymbol| (x.name@, x.line as nat));
                    done + contracts_from(s@, pos as int)
                }),
            decreases s@.len() - pos,
        {
            let ghost done = contracts@.map_values(|x: ExtractedSymbol| (x.name@, x.line as nat));
            match self.declaration_at(&s, pos, &contract_kw, &abstract_kw, &is_kw) {
                Some((a, b, e)) => {
                    proof {
                        lemma_decl_bounds(s@, pos as int);
                    }
                    let mut name = String::new();
                    let mut k = a;
                    while k < b
                        invariant
                            a <= k <= b <= s@.len(),
                            name@ == s@.subrange(a as int, k as int),
                        decreases b - k,
                    {
                        push_char(&mut name, s[k]);
                        assert(s@.subrange(a as int, k + 1) =~= s@.subrange(a as int, k as int).push(s@[k as int]));
                        k = k + 1;
                    }
                    let line = lines_before(&s, pos);
                    let sym = ExtractedSymbol { name, line };
                    contracts.push(sym);
                    assert(contracts@.map_values(|x: ExtractedSymbol| (x.name@, x.line as nat))
                        =~= done.push((s@.subrange(a as int, b as int), line as nat)));
                    assert(contracts_from(s@, pos as int) =~= seq![(s@.subrange(a as int, b as int), line_count(s@.take(pos as int)))] + contracts_from(s@, e as int));
                    assert(done + contracts_from(s@, pos as int) =~= done.push((s@.subrange(a as int, b as int), line as nat)) + contracts_from(s@, e as int));
                    pos = e;
                },
                None => {
                    assert(contracts_from(s@, pos as int) == contracts_from(s@, pos + 1));
                    pos = pos + 1;
                },
            }
        }
        assert(contracts_from(s@, pos as int) == Seq::<(Seq<char>, nat)>::empty());
        assert(all =~= contracts@.map_values(|x: ExtractedSymbol| (x.name@, x.line as nat)));
        proof {
            assert forall|k: int| 0 <= k < contracts@.len() implies (#[trigger] contracts@[k]).name@
                == all[k].0 && contracts@[k].line == all[k].1 by {
                assert(contracts@.map_values(|x: ExtractedSymbol| (x.name@, x.line as nat))[k] == (
                    contracts@[k].name@,
                    contracts@[k].line as nat,
                ));
            }
        }
        contracts
    }
}

} // verus!
