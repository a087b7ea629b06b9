//! The settings of the language server, and the flattening of the nested
//! settings object that editors send into the flat names of those settings.
use vstd::prelude::*;

use crate::text::{push_str, str_eq};

verus! {

/// The settings of the language server.
#[allow(non_snake_case)]
pub struct Config {
    pub inlayHints_closingBraceHints_enable: bool,
    pub inlayHints_closingBraceHints_minLines: u32,
}

/// The line count that a block needs before its closing brace gets a hint, where
/// the settings name none.
pub fn min_lines_default() -> (r: u32)
    ensures
        r == 25,
{
    25
}

impl Default for Config {
    fn default() -> (r: Self)
        ensures
            !r.inlayHints_closingBraceHints_enable,
            r.inlayHints_closingBraceHints_minLines == 0,
    {
        Config { inlayHints_closingBraceHints_enable: false, inlayHints_closingBraceHints_minLines: 0 }
    }
}

/// A JSON value. An object is a list of named members.
pub enum JsonValue {
    Null,
    Bool(bool),
    Number(String),
    Str(String),
    Array(Vec<JsonValue>),
    Object(Vec<(String, JsonValue)>),
}

/// The name of a member of an object nested under `prefix`.
pub open spec fn joined_key(prefix: Seq<char>, key: Seq<char>) -> Seq<char> {
    if prefix.len() == 0 {
        key
    } else {
        prefix + "_"@ + key
    }
}

/// The members of `entries`, each nested object replaced by its own members
/// under joined names, in order.
pub open spec fn flat_entries(entries: Seq<(String, JsonValue)>, prefix: Seq<char>) -> Seq<
    (Seq<char>, JsonValue),
>
    decreases entries,
{
    if entries.len() == 0 {
        seq![]
    } else {
        let last = entries.last();
        let key = joined_key(prefix, last.0@);
        flat_entries(entries.drop_last(), prefix) + match last.1 {
            JsonValue::Object(nested) => flat_entries(nested@, key),
            _ => seq![(key, last.1)],
        }
    }
}

/// `m` with the pairs put in, in order, a later one replacing an earlier one of
/// the same name.
pub open spec fn insert_all(m: Map<Seq<char>, JsonValue>, pairs: Seq<(Seq<char>, JsonValue)>) -> Map<
    Seq<char>,
    JsonValue,
>
    decreases pairs.len(),
{
    if pairs.len() == 0 {
        m
    } else {
        insert_all(m, pairs.drop_last()).insert(pairs.last().0, pairs.last().1)
    }
}

/// No two members have the same name.
pub open spec fn names_unique(entries: Seq<(String, JsonValue)>) -> bool {
    forall|i: int, j: int|
        0 <= i < j < entries.len() ==> #[trigger] entries[i].0@ != #[trigger] entries[j].0@
}

/// The members as a map from name to value.
pub open spec fn entries_map(entries: Seq<(String, JsonValue)>) -> Map<Seq<char>, JsonValue> {
    Map::new(
        |k: Seq<char>| exists|i: int| 0 <= i < entries.len() && #[trigger] entries[i].0@ == k,
        |k: Seq<char>| entries[choose|i: int| 0 <= i < entries.len() && #[trigger] entries[i].0@ == k].1,
    )
}

proof fn lemma_insert_all_append(
    m: Map<Seq<char>, JsonValue>,
    p: Seq<(Seq<char>, JsonValue)>,
    q: Seq<(Seq<char>, JsonValue)>,
)
    ensures
        insert_all(m, p + q) == insert_all(insert_all(m, p), q),
    decreases q.len(),
{
    if q.len() == 0 {
        assert(p + q =~= p);
    } else {
        assert((p + q).drop_last() =~= p + q.drop_last());
        lemma_insert_all_append(m, p, q.drop_last());
    }
}

proof fn lemma_entries_map_set(entries: Seq<(String, JsonValue)>, idx: int, e: (String, JsonValue))
    requires
        names_unique(entries),
        0 <= idx < entries.len(),
        entries[idx].0@ == e.0@,
    ensures
        names_unique(entries.update(idx, e)),
        entries_map(entries.update(idx, e)) == entries_map(entries).insert(e.0@, e.1),
{
    let u = entries.update(idx, e);
    assert forall|k: Seq<char>| #[trigger] entries_map(u).contains_key(k) <==> entries_map(
        entries,
    ).insert(e.0@, e.1).contains_key(k) by {
        if entries_map(u).contains_key(k) {
            let i = choose|i: int| 0 <= i < u.len() && #[trigger] u[i].0@ == k;
            if i != idx {
                assert(entries[i].0@ == k);
            }
        }
        if entries_map(entries).contains_key(k) {
            let i = choose|i: int| 0 <= i < entries.len() && #[trigger] entries[i].0@ == k;
            assert(u[i].0@ == k);
        }
        if k == e.0@ {
            assert(u[idx].0@ == k);
        }
    }
    assert forall|k: Seq<char>| #[trigger] entries_map(u).contains_key(k) implies entries_map(u)[k]
        == entries_map(entries).insert(e.0@, e.1)[k] by {
        let i = choose|i: int| 0 <= i < u.len() && #[trigger] u[i].0@ == k;
        if k == e.0@ {
            assert(u[idx].0@ == k);
            assert(i == idx);
        } else {
            assert(entries[i].0@ == k);
            let j = choose|j: int| 0 <= j < entries.len() && #[trigger] entries[j].0@ == k;
            assert(i == j);
        }
    }
    assert(entries_map(u) =~= entries_map(entries).insert(e.0@, e.1));
}

proof fn lemma_entries_map_push(entries: Seq<(String, JsonValue)>, e: (String, JsonValue))
    requires
        names_unique(entries),
        forall|i: int| 0 <= i < entries.len() ==> #[trigger] entries[i].0@ != e.0@,
    ensures
        names_unique(entries.push(e)),
        entries_map(entries.push(e)) == entries_map(entries).insert(e.0@, e.1),
{
    let u = entries.push(e);
    let n = entries.len() as int;
    assert forall|k: Seq<char>| #[trigger] entries_map(u).contains_key(k) <==> entries_map(
        entries,
    ).insert(e.0@, e.1).contains_key(k) by {
        if entries_map(u).contains_key(k) {
            let i = choose|i: int| 0 <= i < u.len() && #[trigger] u[i].0@ == k;
            if i != n {
                assert(entries[i].0@ == k);
            }
        }
        if entries_map(entries).contains_key(k) {
            let i = choose|i: int| 0 <= i < entries.len() && #[trigger] entries[i].0@ == k;
            assert(u[i].0@ == k);
        }
        if k == e.0@ {
            assert(u[n].0@ == k);
        }
    }
    assert forall|k: Seq<char>| #[trigger] entries_map(u).contains_key(k) implies entries_map(u)[k]
        == entries_map(entries).insert(e.0@, e.1)[k] by {
        let i = choose|i: int| 0 <= i < u.len() && #[trigger] u[i].0@ == k;
        if k == e.0@ {
            assert(u[n].0@ == k);
            assert(i == n);
        } else {
            assert(entries[i].0@ == k);
            let j = choose|j: int| 0 <= j < entries.len() && #[trigger] entries[j].0@ == k;
            assert(i == j);
        }
    }
    assert(entries_map(u) =~= entries_map(entries).insert(e.0@, e.1));
}

/// Puts `value` under `key` into `out`, replacing a member of the same name.
fn put(out: &mut Vec<(String, JsonValue)>, key: String, value: JsonValue)
    requires
        names_unique(old(out)@),
        !(value is Object),
        forall|i: int| 0 <= i < old(out)@.len() ==> !(#[trigger] old(out)@[i].1 is Object),
    ensures
        names_unique(final(out)@),
        entries_map(final(out)@) == entries_map(old(out)@).insert(key@, value),
        forall|i: int| 0 <= i < final(out)@.len() ==> !(#[trigger] final(out)@[i].1 is Object),
{
    let n = out.len();
    let mut i: usize = 0;
    while i < n
        invariant
            out@ == old(out)@,
            names_unique(out@),
            !(value is Object),
            forall|j: int| 0 <= j < out@.len() ==> !(#[trigger] out@[j].1 is Object),
            n == out@.len(),
            i <= n,
            forall|j: int| 0 <= j < i ==> #[trigger] out@[j].0@ != key@,
        decreases n - i,
    {
        if str_eq(out[i].0.as_str(), key.as_str()) {
            let ghost k = key@;
            let ghost v = value;
            proof {
                lemma_entries_map_set(out@, i as int, (key, value));
            }
            out.set(i, (key, value));
            assert(entries_map(out@) == entries_map(old(out)@).insert(k, v));
            assert forall|j: int| 0 <= j < out@.len() implies !(#[trigger] out@[j].1 is Object) by {
                if j != i {
                    assert(out@[j] == old(out)@[j]);
                } else {
                    assert(out@[j].1 == v);
                    assert(!(v is Object));
                }
            }
            return;
        }
        i = i + 1;
    }
    proof {
        lemma_entries_map_push(out@, (key, value));
    }
    out.push((key, value));
}

/// Puts the members of `entries` into `out` under names joined to `prefix`,
/// each nested object replaced by its own members.
fn flatten_into(entries: Vec<(String, JsonValue)>, prefix: &str, out: &mut Vec<(String, JsonValue)>)
    requires
        names_unique(old(out)@),
        forall|i: int| 0 <= i < old(out)@.len() ==> !(#[trigger] old(out)@[i].1 is Object),
    ensures
        names_unique(final(out)@),
        forall|i: int| 0 <= i < final(out)@.len() ==> !(#[trigger] final(out)@[i].1 is Object),
        entries_map(final(out)@) == insert_all(entries_map(old(out)@), flat_entries(entries@, prefix@)),
    decreases entries@,
{
    let ghost all = entries@;
    let ghost start = entries_map(out@);
    let n = entries.len();
    let mut rest = entries;
    let mut stack: Vec<(String, JsonValue)> = Vec::new();
    while rest.len() > 0
        invariant
            rest@.len() + stack@.len() == n,
            all == entries@,
            n == all.len(),
            rest@ == all.take(rest@.len() as int),
            forall|j: int| 0 <= j < stack@.len() ==> #[trigger] stack@[j] == all[n - 1 - j],
        decreases rest@.len(),
    {
        let e = rest.pop().unwrap();
        stack.push(e);
        assert(rest@ =~= all.take(rest@.len() as int));
    }
    let mut i: usize = 0;
    while stack.len() > 0
        invariant
            i + stack@.len() == n,
            all == entries@,
            n == all.len(),
            forall|j: int| 0 <= j < stack@.len() ==> #[trigger] stack@[j] == all[n - 1 - j],
            names_unique(out@),
            forall|j: int| 0 <= j < out@.len() ==> !(#[trigger] out@[j].1 is Object),
            entries_map(out@) == insert_all(start, flat_entries(all.take(i as int), prefix@)),
        decreases stack@.len(),
    {
        let (key, value) = stack.pop().unwrap();
        assert(all.take(i as int + 1).drop_last() =~= all.take(i as int));
        assert(all.take(i as int + 1).last() == all[i as int]);
        let mut name = String::new();
        if prefix.unicode_len() > 0 {
            push_str(&mut name, prefix);
            push_str(&mut name, "_");
        }
        push_str(&mut name, key.as_str());
        assert(name@ == joined_key(prefix@, key@));
        let ghost before = entries_map(out@);
        let ghost done = flat_entries(all.take(i as int), prefix@);
        match value {
            JsonValue::Object(nested) => {
                proof {
                    assert(decreases_to!(all => all[i as int]));
                    assert(decreases_to!(all[i as int] => all[i as int].1));
                    assert(decreases_to!(all[i as int].1 => nested));
                    assert(decreases_to!(nested => nested@));
                    assert(decreases_to!(all => nested@));
                }
                flatten_into(nested, name.as_str(), out);
                proof {
                    lemma_insert_all_append(start, done, flat_entries(nested@, name@));
                }
            },
            _ => {
                let ghost v = value;
                put(out, name, value);
                proof {
                    lemma_insert_all_append(start, done, seq![(name@, v)]);
                    assert(seq![(name@, v)].drop_last() =~= Seq::<(Seq<char>, JsonValue)>::empty());
                    assert(insert_all(before, seq![(name@, v)]) == insert_all(before, seq![]).insert(
                        name@,
                        v,
                    ));
                }
            },
        }
        i = i + 1;
    }
    assert(all.take(n as int) =~= all);
}

/// The value with every object of objects flattened into one object: a member
/// `b` of a member `a` becomes the member `a_b`. Values that are not objects
/// come back unchanged.
pub fn flatten_json(value: JsonValue) -> (r: JsonValue)
    ensures
        !(value is Object) ==> r == value,
        value matches JsonValue::Object(entries) ==> r matches JsonValue::Object(flat) && names_unique(
            flat@,
        ) && entries_map(flat@) == insert_all(Map::empty(), flat_entries(entries@, seq![]))
            && forall|i: int| 0 <= i < flat@.len() ==> !(#[trigger] flat@[i].1 is Object),
{
    match value {
        JsonValue::Object(entries) => {
            let mut out: Vec<(String, JsonValue)> = Vec::new();
            proof {
                assert(entries_map(out@) =~= Map::<Seq<char>, JsonValue>::empty());
            }
            flatten_into(entries, "", &mut out);
            proof {
                reveal_strlit("");
                assert(""@ =~= Seq::<char>::empty());
            }
            JsonValue::Object(out)
        },
        _ => value,
    }
}

} // verus!
