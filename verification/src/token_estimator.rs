//! The token estimator: two independent heuristics over a value tree. One
//! counts serialized characters for the whole document and divides by four,
//! rounding up; the other assigns per-node token counts to six buckets.
//! The two use different counting bases on purpose and need not agree.
//!
//! All counts are in characters. Additions saturate at `usize::MAX`, so
//! every count is the mathematical sum capped there.

use vstd::prelude::*;
use vstd::string::*;

use crate::number::lemma_numeric_first_char;
use crate::value::{value_wf, Entries, Value};

verus! {

/// A mathematical count, capped at what a `usize` can hold.
pub open spec fn cap_usize(n: nat) -> nat {
    if n > usize::MAX {
        usize::MAX as nat
    } else {
        n
    }
}

/// Serialized character count of a value: literal lengths for scalars,
/// quotes counted for strings, brackets, braces and separators counted for
/// containers, and a flat header allowance for tables.
pub open spec fn chars_of(v: Value) -> nat
    decreases v, 0nat, 0nat,
{
    match v {
        Value::Null => 4,
        Value::Bool(b) => if b {
            4
        } else {
            5
        },
        Value::Number(x) => x@.len(),
        Value::String(s) => s@.len() + 2,
        Value::Array(arr) => 2 + chars_of_elems(arr@),
        Value::Object(es) => 2 + chars_of_entries(es.items@),
        Value::Table(t) => t.name@.len() + 10 + chars_of_rows(t.rows@),
    }
}

/// Characters of array elements, with `", "` between them.
pub open spec fn chars_of_elems(s: Seq<Value>) -> nat
    decreases s, 1nat, 0nat,
{
    if s.len() == 0 {
        0
    } else {
        chars_of_elems(s.drop_last()) + (if s.len() > 1 {
            2nat
        } else {
            0nat
        }) + chars_of(s.last())
    }
}

/// Characters of object entries: quoted key, colon and space, value, with
/// `", "` between entries.
pub open spec fn chars_of_entries(items: Seq<(String, Value)>) -> nat
    decreases items, 1nat, 0nat,
{
    if items.len() == 0 {
        0
    } else {
        chars_of_entries(items.drop_last()) + (if items.len() > 1 {
            2nat
        } else {
            0nat
        }) + items.last().0@.len() + 3 + chars_of(items.last().1)
    }
}

/// Characters of table rows: a dash marker per row, then key and value per
/// field.
pub open spec fn chars_of_rows(rows: Seq<Entries>) -> nat
    decreases rows, 1nat, 0nat,
{
    if rows.len() == 0 {
        0
    } else {
        chars_of_rows(rows.drop_last()) + 2 + chars_of_row_fields(rows.last().items@)
    }
}

pub open spec fn chars_of_row_fields(items: Seq<(String, Value)>) -> nat
    decreases items, 1nat, 0nat,
{
    if items.len() == 0 {
        0
    } else {
        chars_of_row_fields(items.drop_last()) + items.last().0@.len() + 2 + chars_of(
            items.last().1,
        )
    }
}

/// Per-bucket token counts of a subtree.
pub struct TokenCounts {
    pub keys: nat,
    pub strings: nat,
    pub primitives: nat,
    pub structure: nat,
    pub tables: nat,
    pub table_rows: nat,
}

impl TokenCounts {
    pub open spec fn zero() -> TokenCounts {
        TokenCounts { keys: 0, strings: 0, primitives: 0, structure: 0, tables: 0, table_rows: 0 }
    }

    pub open spec fn plus(self, o: TokenCounts) -> TokenCounts {
        TokenCounts {
            keys: self.keys + o.keys,
            strings: self.strings + o.strings,
            primitives: self.primitives + o.primitives,
            structure: self.structure + o.structure,
            tables: self.tables + o.tables,
            table_rows: self.table_rows + o.table_rows,
        }
    }
}

/// Tokens of one key name: its length in characters, four to a token,
/// rounded up.
pub open spec fn key_tokens(k: Seq<char>) -> nat {
    cap_usize(k.len() + 3) / 4
}

/// The bucket counts of a value: a flat unit for each scalar, per-length
/// counts for strings and keys, a structural cost per container, and the
/// name cost and row count for tables.
pub open spec fn counts_of(v: Value) -> TokenCounts
    decreases v, 0nat, 0nat,
{
    match v {
        Value::Null => (TokenCounts { primitives: 1, ..TokenCounts::zero() }),
        Value::Bool(_) => (TokenCounts { primitives: 1, ..TokenCounts::zero() }),
        Value::Number(_) => (TokenCounts { primitives: 1, ..TokenCounts::zero() }),
        Value::String(s) => (TokenCounts { strings: key_tokens(s@), ..TokenCounts::zero() }),
        Value::Array(arr) => (TokenCounts {
            structure: 1,
            ..TokenCounts::zero()
        }).plus(counts_of_elems(arr@)),
        Value::Object(es) => (TokenCounts {
            structure: es.items@.len(),
            ..TokenCounts::zero()
        }).plus(counts_of_entries(es.items@)),
        Value::Table(t) => (TokenCounts {
            tables: key_tokens(t.name@),
            table_rows: t.rows@.len(),
            ..TokenCounts::zero()
        }).plus(counts_of_rows(t.rows@)),
    }
}

pub open spec fn counts_of_elems(s: Seq<Value>) -> TokenCounts
    decreases s, 1nat, 0nat,
{
    if s.len() == 0 {
        TokenCounts::zero()
    } else {
        counts_of_elems(s.drop_last()).plus(counts_of(s.last()))
    }
}

/// Entry counts: each key's tokens into the keys bucket, plus the value's
/// own counts. Used for object entries and for table row fields alike.
pub open spec fn counts_of_entries(items: Seq<(String, Value)>) -> TokenCounts
    decreases items, 1nat, 0nat,
{
    if items.len() == 0 {
        TokenCounts::zero()
    } else {
        counts_of_entries(items.drop_last()).plus(
            TokenCounts { keys: key_tokens(items.last().0@), ..TokenCounts::zero() },
        ).plus(counts_of(items.last().1))
    }
}

pub open spec fn counts_of_rows(rows: Seq<Entries>) -> TokenCounts
    decreases rows, 1nat, 0nat,
{
    if rows.len() == 0 {
        TokenCounts::zero()
    } else {
        counts_of_rows(rows.drop_last()).plus(counts_of_entries(rows.last().items@))
    }
}

/// The whole-document token estimator.
pub struct TokenEstimator;

impl TokenEstimator {
    /// Estimates tokens for a value: its serialized character count at
    /// roughly four characters per token, rounded up. A well-formed value
    /// always costs at least one token.
    pub fn estimate(value: &Value) -> (r: usize)
        ensures
            r == cap_usize(chars_of(*value) + 3) / 4,
            value_wf(*value) ==> r >= 1,
    {
        proof {
            if value_wf(*value) {
                if value is Number {
                    lemma_numeric_first_char(value->Number_0@);
                }
                assert(chars_of(*value) >= 1);
            }
        }
        let chars = Self::count_characters(value);
        let c3 = chars.saturating_add(3);
        c3 / 4
    }

    /// Computes the six-bucket breakdown of a value.
    pub fn estimate_breakdown(value: &Value) -> (r: TokenBreakdown)
        ensures
            r.keys == cap_usize(counts_of(*value).keys),
            r.strings == cap_usize(counts_of(*value).strings),
            r.primitives == cap_usize(counts_of(*value).primitives),
            r.structure == cap_usize(counts_of(*value).structure),
            r.tables == cap_usize(counts_of(*value).tables),
            r.table_rows == cap_usize(counts_of(*value).table_rows),
    {
        let mut breakdown = TokenBreakdown::new();
        Self::analyze_value(value, &mut breakdown);
        breakdown
    }

    /// The serialized character count, capped at `usize::MAX`.
    fn count_characters(value: &Value) -> (r: usize)
        ensures
            r == cap_usize(chars_of(*value)),
        decreases *value, 0nat, 0nat,
    {
        match value {
            Value::Null => 4,
            Value::Bool(b) => if *b {
                4
            } else {
                5
            },
            Value::Number(x) => x.as_str().unicode_len(),
            Value::String(s) => s.as_str().unicode_len().saturating_add(2),
            Value::Array(arr) => {
                let n = arr.len();
                let e = Self::count_elems(arr, n);
                proof {
                    assert(arr@.subrange(0, n as int) =~= arr@);
                }
                e.saturating_add(2)
            },
            Value::Object(es) => {
                let n = es.items.len();
                let e = Self::count_entries(&es.items, n);
                proof {
                    assert(es.items@.subrange(0, n as int) =~= es.items@);
                }
                e.saturating_add(2)
            },
            Value::Table(t) => {
                let n = t.rows.len();
                let e = Self::count_rows(&t.rows, n);
                proof {
                    assert(t.rows@.subrange(0, n as int) =~= t.rows@);
                }
                let base = t.name.as_str().unicode_len().saturating_add(10);
                base.saturating_add(e)
            },
        }
    }

    /// Characters of the first `n` array elements.
    fn count_elems(arr: &Vec<Value>, n: usize) -> (r: usize)
        requires
            n <= arr@.len(),
        ensures
            r == cap_usize(chars_of_elems(arr@.subrange(0, n as int))),
        decreases arr@, 1nat, n,
    {
        if n == 0 {
            0
        } else {
            let a = Self::count_elems(arr, n - 1);
            proof {
                assert(decreases_to!(arr@ => arr@[n - 1]));
                assert(arr@.subrange(0, n as int).drop_last() =~= arr@.subrange(0, n as int - 1));
                assert(arr@.subrange(0, n as int).last() == arr@[n - 1]);
            }
            let c = Self::count_characters(&arr[n - 1]);
            let sep: usize = if n > 1 {
                2
            } else {
                0
            };
            a.saturating_add(sep).saturating_add(c)
        }
    }

    /// Characters of the first `n` object entries.
    fn count_entries(items: &Vec<(String, Value)>, n: usize) -> (r: usize)
        requires
            n <= items@.len(),
        ensures
            r == cap_usize(chars_of_entries(items@.subrange(0, n as int))),
        decreases items@, 1nat, n,
    {
        if n == 0 {
            0
        } else {
            let a = Self::count_entries(items, n - 1);
            proof {
                assert(decreases_to!(items@ => items@[n - 1].1));
                assert(items@.subrange(0, n as int).drop_last() =~= items@.subrange(
                    0,
                    n as int - 1,
                ));
                assert(items@.subrange(0, n as int).last() == items@[n - 1]);
            }
            let k = items[n - 1].0.as_str().unicode_len().saturating_add(3);
            let c = Self::count_characters(&items[n - 1].1);
            let sep: usize = if n > 1 {
                2
            } else {
                0
            };
            a.saturating_add(sep).saturating_add(k).saturating_add(c)
        }
    }

    /// Characters of the first `n` table rows.
    fn count_rows(rows: &Vec<Entries>, n: usize) -> (r: usize)
        requires
            n <= rows@.len(),
        ensures
            r == cap_usize(chars_of_rows(rows@.subrange(0, n as int))),
        decreases rows@, 1nat, n,
    {
        if n == 0 {
            0
        } else {
            let a = Self::count_rows(rows, n - 1);
            let row = &rows[n - 1];
            let m = row.items.len();
            proof {
                assert(decreases_to!(rows@ => rows@[n - 1].items@));
                assert(rows@.subrange(0, n as int).drop_last() =~= rows@.subrange(0, n as int - 1));
                assert(rows@.subrange(0, n as int).last() == rows@[n - 1]);
            }
            let f = Self::count_row_fields(&row.items, m);
            proof {
                assert(row.items@.subrange(0, m as int) =~= row.items@);
            }
            a.saturating_add(2).saturating_add(f)
        }
    }

    /// Characters of the first `n` fields of one table row.
    fn count_row_fields(items: &Vec<(String, Value)>, n: usize) -> (r: usize)
        requires
            n <= items@.len(),
        ensures
            r == cap_usize(chars_of_row_fields(items@.subrange(0, n as int))),
        decreases items@, 1nat, n,
    {
        if n == 0 {
            0
        } else {
            let a = Self::count_row_fields(items, n - 1);
            proof {
                assert(decreases_to!(items@ => items@[n - 1].1));
                assert(items@.subrange(0, n as int).drop_last() =~= items@.subrange(
                    0,
                    n as int - 1,
                ));
                assert(items@.subrange(0, n as int).last() == items@[n - 1]);
            }
            let k = items[n - 1].0.as_str().unicode_len().saturating_add(2);
            let c = Self::count_characters(&items[n - 1].1);
            a.saturating_add(k).saturating_add(c)
        }
    }

    /// Adds a subtree's bucket counts into `breakdown`.
    fn analyze_value(value: &Value, breakdown: &mut TokenBreakdown)
        ensures
            breakdown_adds(*old(breakdown), *final(breakdown), counts_of(*value)),
        decreases *value, 0nat, 0nat,
    {
        match value {
            Value::Null => breakdown.add_primitive(1),
            Value::Bool(_) => breakdown.add_primitive(1),
            Value::Number(_) => breakdown.add_primitive(1),
            Value::String(s) => {
                let t = s.as_str().unicode_len().saturating_add(3) / 4;
                proof {
                    assert(t == key_tokens(s@));
                }
                breakdown.add_string(t);
            },
            Value::Array(arr) => {
                breakdown.add_structure(1);
                let n = arr.len();
                Self::analyze_elems(arr, n, breakdown);
                proof {
                    assert(arr@.subrange(0, n as int) =~= arr@);
                }
            },
            Value::Object(es) => {
                breakdown.add_structure(es.items.len());
                let n = es.items.len();
                Self::analyze_entries(&es.items, n, breakdown);
                proof {
                    assert(es.items@.subrange(0, n as int) =~= es.items@);
                }
            },
            Value::Table(t) => {
                let name_tokens = t.name.as_str().unicode_len().saturating_add(3) / 4;
                proof {
                    assert(name_tokens == key_tokens(t.name@));
                }
                breakdown.add_table(name_tokens, t.rows.len());
                let n = t.rows.len();
                Self::analyze_rows(&t.rows, n, breakdown);
                proof {
                    assert(t.rows@.subrange(0, n as int) =~= t.rows@);
                }
            },
        }
    }

    /// Adds the counts of the first `n` array elements.
    fn analyze_elems(arr: &Vec<Value>, n: usize, breakdown: &mut TokenBreakdown)
        requires
            n <= arr@.len(),
        ensures
            breakdown_adds(
                *old(breakdown),
                *final(breakdown),
                counts_of_elems(arr@.subrange(0, n as int)),
            ),
        decreases arr@, 1nat, n,
    {
        if n > 0 {
            Self::analyze_elems(arr, n - 1, breakdown);
            proof {
                assert(decreases_to!(arr@ => arr@[n - 1]));
                assert(arr@.subrange(0, n as int).drop_last() =~= arr@.subrange(0, n as int - 1));
                assert(arr@.subrange(0, n as int).last() == arr@[n - 1]);
            }
            Self::analyze_value(&arr[n - 1], breakdown);
        }
    }

    /// Adds the counts of the first `n` object entries or row fields.
    fn analyze_entries(items: &Vec<(String, Value)>, n: usize, breakdown: &mut TokenBreakdown)
        requires
            n <= items@.len(),
        ensures
            breakdown_adds(
                *old(breakdown),
                *final(breakdown),
                counts_of_entries(items@.subrange(0, n as int)),
            ),
        decreases items@, 1nat, n,
    {
        if n > 0 {
            Self::analyze_entries(items, n - 1, breakdown);
            proof {
                assert(decreases_to!(items@ => items@[n - 1].1));
                assert(items@.subrange(0, n as int).drop_last() =~= items@.subrange(
                    0,
                    n as int - 1,
                ));
                assert(items@.subrange(0, n as int).last() == items@[n - 1]);
            }
            let k = items[n - 1].0.as_str().unicode_len().saturating_add(3) / 4;
            proof {
                assert(k == key_tokens(items@[n - 1].0@));
            }
            breakdown.add_key(k);
            Self::analyze_value(&items[n - 1].1, breakdown);
        }
    }

    /// Adds the counts of the first `n` table rows.
    fn analyze_rows(rows: &Vec<Entries>, n: usize, breakdown: &mut TokenBreakdown)
        requires
            n <= rows@.len(),
        ensures
            breakdown_adds(
                *old(breakdown),
                *final(breakdown),
                counts_of_rows(rows@.subrange(0, n as int)),
            ),
        decreases rows@, 1nat, n,
    {
        if n > 0 {
            Self::analyze_rows(rows, n - 1, breakdown);
            let row = &rows[n - 1];
            let m = row.items.len();
            proof {
                assert(decreases_to!(rows@ => rows@[n - 1].items@));
                assert(rows@.subrange(0, n as int).drop_last() =~= rows@.subrange(0, n as int - 1));
                assert(rows@.subrange(0, n as int).last() == rows@[n - 1]);
            }
            Self::analyze_entries(&row.items, m, breakdown);
            proof {
                assert(row.items@.subrange(0, m as int) =~= row.items@);
            }
        }
    }
}

/// `after` is `before` with `c` added into each bucket, saturating.
pub open spec fn breakdown_adds(before: TokenBreakdown, after: TokenBreakdown, c: TokenCounts) -> bool {
    &&& after.keys == cap_usize((before.keys + c.keys) as nat)
    &&& after.strings == cap_usize((before.strings + c.strings) as nat)
    &&& after.primitives == cap_usize((before.primitives + c.primitives) as nat)
    &&& after.structure == cap_usize((before.structure + c.structure) as nat)
    &&& after.tables == cap_usize((before.tables + c.tables) as nat)
    &&& after.table_rows == cap_usize((before.table_rows + c.table_rows) as nat)
}

/// The six-bucket token breakdown. `total` sums the first five buckets;
/// the row count is informational only.
#[derive(Debug, Clone, Copy, PartialEq, Eq, Structural)]
pub struct TokenBreakdown {
    pub keys: usize,
    pub strings: usize,
    pub primitives: usize,
    pub structure: usize,
    pub tables: usize,
    pub table_rows: usize,
}

impl TokenBreakdown {
    pub fn new() -> (r: TokenBreakdown)
        ensures
            r.keys == 0,
            r.strings == 0,
            r.primitives == 0,
            r.structure == 0,
            r.tables == 0,
            r.table_rows == 0,
    {
        TokenBreakdown {
            keys: 0,
            strings: 0,
            primitives: 0,
            structure: 0,
            tables: 0,
            table_rows: 0,
        }
    }

    pub fn add_key(&mut self, tokens: usize)
        ensures
            final(self).keys == cap_usize((old(self).keys + tokens) as nat),
            final(self).strings == old(self).strings,
            final(self).primitives == old(self).primitives,
            final(self).structure == old(self).structure,
            final(self).tables == old(self).tables,
            final(self).table_rows == old(self).table_rows,
    {
        self.keys = self.keys.saturating_add(tokens);
    }

    pub fn add_string(&mut self, tokens: usize)
        ensures
            final(self).strings == cap_usize((old(self).strings + tokens) as nat),
            final(self).keys == old(self).keys,
            final(self).primitives == old(self).primitives,
            final(self).structure == old(self).structure,
            final(self).tables == old(self).tables,
            final(self).table_rows == old(self).table_rows,
    {
        self.strings = self.strings.saturating_add(tokens);
    }

    pub fn add_primitive(&mut self, tokens: usize)
        ensures
            final(self).primitives == cap_usize((old(self).primitives + tokens) as nat),
            final(self).keys == old(self).keys,
            final(self).strings == old(self).strings,
            final(self).structure == old(self).structure,
            final(self).tables == old(self).tables,
            final(self).table_rows == old(self).table_rows,
    {
        self.primitives = self.primitives.saturating_add(tokens);
    }

    pub fn add_structure(&mut self, tokens: usize)
        ensures
            final(self).structure == cap_usize((old(self).structure + tokens) as nat),
            final(self).keys == old(self).keys,
            final(self).strings == old(self).strings,
            final(self).primitives == old(self).primitives,
            final(self).tables == old(self).tables,
            final(self).table_rows == old(self).table_rows,
    {
        self.structure = self.structure.saturating_add(tokens);
    }

    pub fn add_table(&mut self, name_tokens: usize, rows: usize)
        ensures
            final(self).tables == cap_usize((old(self).tables + name_tokens) as nat),
            final(self).table_rows == cap_usize((old(self).table_rows + rows) as nat),
            final(self).keys == old(self).keys,
            final(self).strings == old(self).strings,
            final(self).primitives == old(self).primitives,
            final(self).structure == old(self).structure,
    {
        self.tables = self.tables.saturating_add(name_tokens);
        self.table_rows = self.table_rows.saturating_add(rows);
    }

    /// The sum of the five counted buckets; rows are not counted.
    pub fn total(&self) -> (r: usize)
        ensures
            r == cap_usize(
                (self.keys + self.strings + self.primitives + self.structure + self.tables) as nat,
            ),
    {
        self.keys.saturating_add(self.strings).saturating_add(self.primitives).saturating_add(
            self.structure,
        ).saturating_add(self.tables)
    }
}

} // verus!
