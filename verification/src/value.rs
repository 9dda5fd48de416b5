//! The in-memory value model shared by the parsers, the validator and the
//! token estimator: a closed tagged union over nulls, booleans, numbers,
//! strings, arrays, objects and tables.
//!
//! A number is carried as the text of its numeric literal; the parser admits
//! exactly the literals that parse as a double-precision float, and no part
//! of the pipeline computes with the numeric value itself.

use vstd::prelude::*;
use vstd::string::*;

use crate::text::str_eq;

verus! {

/// A parsed document value.
#[derive(Debug, PartialEq)]
pub enum Value {
    Null,
    Bool(bool),
    /// The text of a numeric literal, e.g. `"42"` or `"-1.5e3"`.
    Number(String),
    String(String),
    Array(Vec<Value>),
    Object(Entries),
    Table(Table),
}

/// A named tabular section: a declared row count and the parsed rows.
#[derive(Debug, PartialEq)]
pub struct Table {
    pub name: String,
    pub declared_rows: usize,
    pub rows: Vec<Entries>,
}

/// An insertion-ordered mapping from string keys to values, used for both
/// objects and table rows. `insert` overwrites the first entry with an equal
/// key, so maps built through it have pairwise-distinct keys.
#[derive(Debug, PartialEq)]
pub struct Entries {
    pub items: Vec<(String, Value)>,
}

/// The value under the first entry of `items` whose key reads `k`.
pub open spec fn spec_get_from(items: Seq<(String, Value)>, k: Seq<char>) -> Option<Value>
    decreases items.len(),
{
    if items.len() == 0 {
        None
    } else if items[0].0@ == k {
        Some(items[0].1)
    } else {
        spec_get_from(items.drop_first(), k)
    }
}

/// Index of the first entry whose key reads `k`, or -1.
pub open spec fn spec_key_index(items: Seq<(String, Value)>, k: Seq<char>) -> int
    decreases items.len(),
{
    if items.len() == 0 {
        -1
    } else if items[0].0@ == k {
        0
    } else if spec_key_index(items.drop_first(), k) == -1 {
        -1
    } else {
        1 + spec_key_index(items.drop_first(), k)
    }
}

/// The keys of `items`, in order.
pub open spec fn spec_keys_of(items: Seq<(String, Value)>) -> Seq<Seq<char>> {
    items.map_values(|p: (String, Value)| p.0@)
}

pub broadcast proof fn lemma_key_index_props(items: Seq<(String, Value)>, k: Seq<char>)
    ensures
        #![trigger spec_key_index(items, k)]
        spec_key_index(items, k) >= -1,
        spec_key_index(items, k) == -1 ==> spec_get_from(items, k) is None,
        spec_key_index(items, k) >= 0 ==> {
            let i = spec_key_index(items, k);
            &&& i < items.len()
            &&& items[i].0@ == k
            &&& (forall|j: int| 0 <= j < i ==> items[j].0@ != k)
            &&& spec_get_from(items, k) == Some(items[i].1)
        },
    decreases items.len(),
{
    if items.len() > 0 && items[0].0@ != k {
        let rest = items.drop_first();
        lemma_key_index_props(rest, k);
        assert forall|j: int| 0 <= j < rest.len() implies rest[j] == items[j + 1] by {}
        if spec_key_index(items, k) >= 0 {
            let i = spec_key_index(items, k);
            let si = spec_key_index(rest, k);
            assert(items[i] == rest[si]);
            assert forall|j: int| 0 <= j < i implies items[j].0@ != k by {
                if j > 0 {
                    assert(rest[j - 1].0@ != k);
                    assert(items[j] == rest[j - 1]);
                }
            }
        }
    }
}

proof fn lemma_get_skip(items: Seq<(String, Value)>, k: Seq<char>, i: int)
    requires
        0 <= i <= items.len(),
        forall|j: int| 0 <= j < i ==> items[j].0@ != k,
    ensures
        spec_get_from(items, k) == spec_get_from(items.subrange(i, items.len() as int), k),
    decreases i,
{
    if i > 0 {
        lemma_get_skip(items.drop_first(), k, i - 1);
        assert(items.subrange(i, items.len() as int) =~= items.drop_first().subrange(
            i - 1,
            items.drop_first().len() as int,
        ));
    } else {
        assert(items.subrange(0, items.len() as int) =~= items);
    }
}

impl Entries {
    /// The value stored under `k`, if any.
    pub open spec fn spec_get(self, k: Seq<char>) -> Option<Value> {
        spec_get_from(self.items@, k)
    }

    /// Whether some entry has key `k`.
    pub open spec fn spec_contains_key(self, k: Seq<char>) -> bool {
        self.spec_get(k) is Some
    }

    /// The keys, in entry order.
    pub open spec fn keys(self) -> Seq<Seq<char>> {
        spec_keys_of(self.items@)
    }

    pub fn new() -> (r: Entries)
        ensures
            r.items@ =~= Seq::<(String, Value)>::empty(),
    {
        Entries { items: Vec::new() }
    }

    pub fn len(&self) -> (r: usize)
        ensures
            r == self.items@.len(),
    {
        self.items.len()
    }

    pub fn is_empty(&self) -> (r: bool)
        ensures
            r == (self.items@.len() == 0),
    {
        self.items.len() == 0
    }

    /// Looks a key up; `None` exactly when no entry has that key.
    pub fn get<'a>(&'a self, key: &str) -> (r: Option<&'a Value>)
        ensures
            match r {
                Some(v) => self.spec_get(key@) == Some(*v),
                None => self.spec_get(key@) is None,
            },
    {
        let n = self.items.len();
        let mut i: usize = 0;
        while i < n
            invariant
                0 <= i <= n,
                n == self.items@.len(),
                forall|j: int| 0 <= j < i ==> self.items@[j].0@ != key@,
            decreases n - i,
        {
            let p = &self.items[i];
            if str_eq(p.0.as_str(), key) {
                proof {
                    lemma_get_skip(self.items@, key@, i as int);
                    assert(self.items@.subrange(i as int, n as int)[0] == self.items@[i as int]);
                }
                return Some(&p.1);
            }
            i = i + 1;
        }
        proof {
            lemma_get_skip(self.items@, key@, n as int);
        }
        None
    }

    /// Inserts `value` under `key`: overwrites the first entry with that key
    /// in place, or appends a new entry.
    pub fn insert(&mut self, key: String, value: Value)
        ensures
            ({
                let idx = spec_key_index(old(self).items@, key@);
                if idx >= 0 {
                    final(self).items@ =~= old(self).items@.update(idx, (key, value))
                } else {
                    final(self).items@ =~= old(self).items@.push((key, value))
                }
            }),
            entries_consistent(old(self).items@) && tables_consistent(value)
                ==> entries_consistent(final(self).items@),
            entries_wf(old(self).items@) && value_wf(value) ==> entries_wf(final(self).items@),
    {
        proof {
            lemma_key_index_props(self.items@, key@);
        }
        let n = self.items.len();
        let mut i: usize = 0;
        while i < n
            invariant
                0 <= i <= n,
                n == self.items@.len(),
                forall|j: int| 0 <= j < i ==> self.items@[j].0@ != key@,
                self == old(self),
            decreases n - i,
        {
            if str_eq(self.items[i].0.as_str(), key.as_str()) {
                proof {
                    lemma_key_index_first(self.items@, key@, i as int);
                }
                self.items.remove(i);
                self.items.insert(i, (key, value));
                proof {
                    let idx = spec_key_index(old(self).items@, key@);
                    assert(self.items@ =~= old(self).items@.update(idx, (key, value)));
                    if entries_consistent(old(self).items@) && tables_consistent(value) {
                        lemma_insert_keeps_consistent(old(self).items@, (key, value));
                    }
                    if entries_wf(old(self).items@) && value_wf(value) {
                        lemma_insert_keeps_wf(old(self).items@, (key, value));
                    }
                }
                return ;
            }
            i = i + 1;
        }
        proof {
            lemma_key_index_none(self.items@, key@, n as int);
        }
        self.items.push((key, value));
        proof {
            assert(self.items@ =~= old(self).items@.push((key, value)));
            if entries_consistent(old(self).items@) && tables_consistent(value) {
                lemma_insert_keeps_consistent(old(self).items@, (key, value));
            }
            if entries_wf(old(self).items@) && value_wf(value) {
                lemma_insert_keeps_wf(old(self).items@, (key, value));
            }
        }
    }
}

proof fn lemma_key_index_first(items: Seq<(String, Value)>, k: Seq<char>, i: int)
    requires
        0 <= i < items.len(),
        items[i].0@ == k,
        forall|j: int| 0 <= j < i ==> items[j].0@ != k,
    ensures
        spec_key_index(items, k) == i,
    decreases i,
{
    if i > 0 {
        lemma_key_index_first(items.drop_first(), k, i - 1);
    }
}

proof fn lemma_key_index_none(items: Seq<(String, Value)>, k: Seq<char>, n: int)
    requires
        n == items.len(),
        forall|j: int| 0 <= j < n ==> items[j].0@ != k,
    ensures
        spec_key_index(items, k) == -1,
    decreases n,
{
    if n > 0 {
        lemma_key_index_none(items.drop_first(), k, n - 1);
    }
}

/// The row-count invariant, everywhere in a tree: every table holds exactly
/// as many rows as it declares.
pub open spec fn tables_consistent(v: Value) -> bool
    decreases v,
{
    match v {
        Value::Null => true,
        Value::Bool(_) => true,
        Value::Number(_) => true,
        Value::String(_) => true,
        Value::Array(arr) => forall|i: int|
            0 <= i < arr@.len() ==> tables_consistent(#[trigger] arr@[i]),
        Value::Object(es) => forall|i: int|
            0 <= i < es.items@.len() ==> tables_consistent(#[trigger] es.items@[i].1),
        Value::Table(t) => t.rows@.len() == t.declared_rows && forall|i: int, j: int|
            0 <= i < t.rows@.len() && 0 <= j < t.rows@[i].items@.len() ==> tables_consistent(
                #[trigger] t.rows@[i].items@[j].1,
            ),
    }
}

/// Well-formedness of the value model, everywhere in a tree: every
/// `Number` payload is a numeric literal, as the parser guarantees. The
/// estimator's lower bound holds of well-formed trees.
pub open spec fn value_wf(v: Value) -> bool
    decreases v,
{
    match v {
        Value::Null => true,
        Value::Bool(_) => true,
        Value::Number(x) => crate::number::spec_is_numeric(x@),
        Value::String(_) => true,
        Value::Array(arr) => forall|i: int| 0 <= i < arr@.len() ==> value_wf(#[trigger] arr@[i]),
        Value::Object(es) => forall|i: int|
            0 <= i < es.items@.len() ==> value_wf(#[trigger] es.items@[i].1),
        Value::Table(t) => forall|i: int, j: int|
            0 <= i < t.rows@.len() && 0 <= j < t.rows@[i].items@.len() ==> value_wf(
                #[trigger] t.rows@[i].items@[j].1,
            ),
    }
}

/// `value_wf`, over every value of an entry list.
pub open spec fn entries_wf(items: Seq<(String, Value)>) -> bool {
    forall|i: int| 0 <= i < items.len() ==> value_wf(#[trigger] items[i].1)
}

/// Inserting a well-formed value, whether it overwrites or appends, keeps
/// an entry list well-formed.
pub proof fn lemma_insert_keeps_wf(items: Seq<(String, Value)>, p: (String, Value))
    requires
        entries_wf(items),
        value_wf(p.1),
    ensures
        entries_wf(items.push(p)),
        forall|i: int| 0 <= i < items.len() ==> entries_wf(#[trigger] items.update(i, p)),
{
    assert forall|i: int| 0 <= i < items.push(p).len() implies value_wf(items.push(p)[i].1) by {
        if i < items.len() {
            assert(items.push(p)[i] == items[i]);
        } else {
            assert(items.push(p)[i] == p);
        }
    }
    assert forall|i: int| 0 <= i < items.len() implies entries_wf(#[trigger] items.update(i, p)) by {
        assert forall|j: int| 0 <= j < items.update(i, p).len() implies value_wf(
            items.update(i, p)[j].1,
        ) by {
            if j != i {
                assert(items.update(i, p)[j] == items[j]);
            }
        }
    }
}

/// `tables_consistent`, over every value of an entry list.
pub open spec fn entries_consistent(items: Seq<(String, Value)>) -> bool {
    forall|i: int| 0 <= i < items.len() ==> tables_consistent(#[trigger] items[i].1)
}

/// Inserting a consistent value, whether it overwrites or appends, keeps an
/// entry list consistent.
pub proof fn lemma_insert_keeps_consistent(items: Seq<(String, Value)>, p: (String, Value))
    requires
        entries_consistent(items),
        tables_consistent(p.1),
    ensures
        entries_consistent(items.push(p)),
        forall|i: int| 0 <= i < items.len() ==> entries_consistent(#[trigger] items.update(i, p)),
{
    assert forall|i: int| 0 <= i < items.push(p).len() implies tables_consistent(
        items.push(p)[i].1,
    ) by {
        if i < items.len() {
            assert(items.push(p)[i] == items[i]);
        } else {
            assert(items.push(p)[i] == p);
        }
    }
    assert forall|i: int| 0 <= i < items.len() implies entries_consistent(
        #[trigger] items.update(i, p),
    ) by {
        assert forall|j: int| 0 <= j < items.update(i, p).len() implies tables_consistent(
            items.update(i, p)[j].1,
        ) by {
            if j != i {
                assert(items.update(i, p)[j] == items[j]);
            }
        }
    }
}

impl Value {
    /// Whether this value is a table.
    pub fn is_table(&self) -> (r: bool)
        ensures
            r == (self is Table),
    {
        match self {
            Value::Table(_) => true,
            _ => false,
        }
    }

    /// The table inside, if this value is one.
    pub fn as_table(&self) -> (r: Option<&Table>)
        ensures
            match r {
                Some(t) => self matches Value::Table(t0) && t0 == *t,
                None => !(self is Table),
            },
    {
        match self {
            Value::Table(t) => Some(t),
            _ => None,
        }
    }

    /// The object entries inside, if this value is an object.
    pub fn as_object(&self) -> (r: Option<&Entries>)
        ensures
            match r {
                Some(o) => self matches Value::Object(o0) && o0 == *o,
                None => !(self is Object),
            },
    {
        match self {
            Value::Object(o) => Some(o),
            _ => None,
        }
    }
}

} // verus!
