//! The structural validator: a recursive walk that re-checks the
//! declared-vs-actual row count of every table and the consistency of each
//! table's row schemas against its first row, plus a separate, non-fatal
//! advisory pass over empty containers.

use vstd::prelude::*;
use vstd::string::*;

use crate::error::TqError;
use crate::text::{spec_dec_str, usize_to_string};
use crate::value::{Entries, Table, Value};

verus! {

/// Whether some entry of `items` has key `k`.
pub open spec fn key_present(items: Seq<(String, Value)>, k: Seq<char>) -> bool {
    exists|i: int| 0 <= i < items.len() && items[i].0@ == k
}

/// The key set of a row or object.
pub open spec fn key_set(items: Seq<(String, Value)>) -> Set<Seq<char>> {
    Set::new(|k: Seq<char>| key_present(items, k))
}

/// The keys of `a`, in entry order, that are absent from `b`.
pub open spec fn spec_diff(a: Seq<(String, Value)>, b: Seq<(String, Value)>) -> Seq<Seq<char>>
    decreases a.len(),
{
    if a.len() == 0 {
        Seq::empty()
    } else {
        let rest = spec_diff(a.drop_last(), b);
        if !key_present(b, a.last().0@) {
            rest.push(a.last().0@)
        } else {
            rest
        }
    }
}

/// The schema report contents are the one-sided set differences: comparing
/// row `b` against reference `a` reports as missing exactly the keys of `a`
/// absent from `b`, and, with the arguments flipped, as extra exactly the
/// keys of `b` absent from `a`.
pub proof fn lemma_diff_is_set_difference(a: Seq<(String, Value)>, b: Seq<(String, Value)>)
    ensures
        forall|k: Seq<char>| #[trigger]
            spec_diff(a, b).contains(k) <==> (key_present(a, k) && !key_present(b, k)),
    decreases a.len(),
{
    if a.len() > 0 {
        lemma_diff_is_set_difference(a.drop_last(), b);
        let rest = spec_diff(a.drop_last(), b);
        let d = spec_diff(a, b);
        assert forall|k: Seq<char>| #[trigger] d.contains(k) implies (key_present(a, k)
            && !key_present(b, k)) by {
            if !key_present(b, a.last().0@) && k == a.last().0@ {
                assert(a[a.len() - 1].0@ == k);
            } else {
                let i = choose|i: int| 0 <= i < d.len() && d[i] == k;
                if i < rest.len() {
                    assert(rest[i] == k);
                    assert(rest.contains(k));
                } else {
                    assert(k == a.last().0@);
                }
                assert(key_present(a.drop_last(), k) || k == a.last().0@);
                assert forall|j: int| 0 <= j < a.len() - 1 && a.drop_last()[j].0@
                    == k implies a[j].0@ == k by {}
            }
        }
        assert forall|k: Seq<char>| key_present(a, k) && !key_present(b, k) implies #[trigger] d
            .contains(k) by {
            let i = choose|i: int| 0 <= i < a.len() && a[i].0@ == k;
            if i < a.len() - 1 {
                assert(a.drop_last()[i].0@ == k);
                assert(key_present(a.drop_last(), k));
                assert(rest.contains(k));
                let j = choose|j: int| 0 <= j < rest.len() && rest[j] == k;
                assert(d[j] == k);
            } else {
                assert(k == a.last().0@);
                assert(d[d.len() - 1] == k);
            }
        }
    }
}

/// Divergence detection is symmetric: the two one-sided diffs are both
/// empty exactly when the two key sets are equal, whichever row is the
/// reference.
pub proof fn lemma_diff_detection_symmetric(a: Seq<(String, Value)>, b: Seq<(String, Value)>)
    ensures
        (spec_diff(a, b).len() == 0 && spec_diff(b, a).len() == 0) <==> key_set(a) == key_set(b),
{
    lemma_diff_is_set_difference(a, b);
    lemma_diff_is_set_difference(b, a);
    if spec_diff(a, b).len() == 0 && spec_diff(b, a).len() == 0 {
        assert forall|k: Seq<char>| #[trigger] key_set(a).contains(k) implies key_set(b).contains(
            k,
        ) by {
            if !key_present(b, k) {
                assert(spec_diff(a, b).contains(k));
            }
        }
        assert forall|k: Seq<char>| #[trigger] key_set(b).contains(k) implies key_set(a).contains(
            k,
        ) by {
            if !key_present(a, k) {
                assert(spec_diff(b, a).contains(k));
            }
        }
        assert(key_set(a) =~= key_set(b));
    } else {
        if spec_diff(a, b).len() > 0 {
            let k = spec_diff(a, b).last();
            assert(spec_diff(a, b).contains(k));
            assert(key_set(a).contains(k) && !key_set(b).contains(k));
        } else {
            let k = spec_diff(b, a).last();
            assert(spec_diff(b, a).contains(k));
            assert(key_set(b).contains(k) && !key_set(a).contains(k));
        }
    }
}

/// Structural validity, everywhere in a tree: every table holds as many
/// rows as declared, and every row's key set equals the first row's.
pub open spec fn spec_valid(v: Value) -> bool
    decreases v, 0nat,
{
    match v {
        Value::Null => true,
        Value::Bool(_) => true,
        Value::Number(_) => true,
        Value::String(_) => true,
        Value::Array(arr) => forall|i: int|
            0 <= i < arr@.len() ==> spec_valid(#[trigger] arr@[i]),
        Value::Object(es) => forall|i: int|
            0 <= i < es.items@.len() ==> spec_valid(#[trigger] es.items@[i].1),
        Value::Table(t) => spec_table_valid(t),
    }
}

/// Validity of one table.
pub open spec fn spec_table_valid(t: Table) -> bool
    decreases t, 1nat,
{
    &&& t.rows@.len() == t.declared_rows
    &&& (forall|i: int|
        0 <= i < t.rows@.len() ==> key_set(#[trigger] t.rows@[i].items@) == key_set(
            t.rows@[0].items@,
        ))
    &&& (forall|i: int, j: int|
        0 <= i < t.rows@.len() && 0 <= j < t.rows@[i].items@.len() ==> spec_valid(
            #[trigger] t.rows@[i].items@[j].1,
        ))
}

/// The error the validator reports for an invalid table: the
/// declared-vs-actual count first; otherwise the first schema-divergent
/// row, with its exact rendered report; otherwise the error of the first
/// invalid cell in row-major order.
pub open spec fn spec_table_err(t: Table, e: TqError) -> bool
    decreases t,
{
    if t.rows@.len() != t.declared_rows {
        e matches TqError::TableRowMismatch { name, declared, actual } && name@ == t.name@
            && declared == t.declared_rows && actual == t.rows@.len()
    } else if exists|i: int|
        1 <= i < t.rows@.len() && key_set(#[trigger] t.rows@[i].items@) != key_set(
            t.rows@[0].items@,
        ) {
        e matches TqError::TableSchemaInconsistent { name, message } && name@ == t.name@
            && (exists|i: int|
            {
                &&& 1 <= i < t.rows@.len()
                &&& key_set(#[trigger] t.rows@[i].items@) != key_set(t.rows@[0].items@)
                &&& (forall|j: int|
                    1 <= j < i ==> key_set(#[trigger] t.rows@[j].items@) == key_set(
                        t.rows@[0].items@,
                    ))
                &&& message@ == spec_schema_message(
                    (i + 1) as nat,
                    spec_diff(t.rows@[0].items@, t.rows@[i].items@),
                    spec_diff(t.rows@[i].items@, t.rows@[0].items@),
                )
            })
    } else {
        exists|i: int, j: int|
            #![trigger t.rows@[i].items@[j]]
            {
                &&& 0 <= i < t.rows@.len()
                &&& 0 <= j < t.rows@[i].items@.len()
                &&& (forall|a: int, b: int|
                    0 <= a < t.rows@.len() && 0 <= b < t.rows@[a].items@.len() && (a < i || (a
                        == i && b < j)) ==> spec_valid(#[trigger] t.rows@[a].items@[b].1))
                &&& !spec_valid(t.rows@[i].items@[j].1)
                &&& spec_validate_err(t.rows@[i].items@[j].1, e)
            }
    }
}

/// The error the validator reports for an invalid tree: produced by the
/// first invalid child in traversal order, and pinned exactly at the
/// offending table.
pub open spec fn spec_validate_err(v: Value, e: TqError) -> bool
    decreases v,
{
    match v {
        Value::Array(arr) => exists|i: int|
            #![trigger arr@[i]]
            {
                &&& 0 <= i < arr@.len()
                &&& (forall|j: int| 0 <= j < i ==> spec_valid(#[trigger] arr@[j]))
                &&& !spec_valid(arr@[i])
                &&& spec_validate_err(arr@[i], e)
            },
        Value::Object(es) => exists|i: int|
            #![trigger es.items@[i]]
            {
                &&& 0 <= i < es.items@.len()
                &&& (forall|j: int| 0 <= j < i ==> spec_valid(#[trigger] es.items@[j].1))
                &&& !spec_valid(es.items@[i].1)
                &&& spec_validate_err(es.items@[i].1, e)
            },
        Value::Table(t) => spec_table_err(t, e),
        _ => false,
    }
}

/// The rendered text of a schema-inconsistency report for 1-based row `n`:
/// the missing keys (reference minus row) and the extra keys (row minus
/// reference), each listed only when non-empty.
pub open spec fn spec_schema_message(n: nat, missing: Seq<Seq<char>>, extra: Seq<Seq<char>>) -> Seq<
    char,
> {
    "Row "@ + spec_dec_str(n) + " has different schema. "@ + (if missing.len() > 0 {
        "Missing fields: "@ + spec_quoted_list(missing) + ". "@
    } else {
        Seq::empty()
    }) + (if extra.len() > 0 {
        "Extra fields: "@ + spec_quoted_list(extra) + ". "@
    } else {
        Seq::empty()
    })
}

/// A bracketed, comma-separated list of double-quoted keys.
pub open spec fn spec_quoted_list(ks: Seq<Seq<char>>) -> Seq<char> {
    seq!['['] + spec_quoted_items(ks) + seq![']']
}

pub open spec fn spec_quoted_items(ks: Seq<Seq<char>>) -> Seq<char>
    decreases ks.len(),
{
    if ks.len() == 0 {
        Seq::empty()
    } else if ks.len() == 1 {
        seq!['"'] + ks[0] + seq!['"']
    } else {
        spec_quoted_items(ks.drop_last()) + seq![',', ' '] + seq!['"'] + ks.last() + seq!['"']
    }
}

/// The advisory strings for a subtree at a dotted/bracketed path: empty
/// objects and arrays, and tables declared non-empty but materialized
/// empty, in traversal order.
pub open spec fn spec_issues(v: Value, path: Seq<char>) -> Seq<Seq<char>>
    decreases v, 1nat,
{
    match v {
        Value::Object(es) => (if es.items@.len() == 0 {
            seq![spec_empty_object_msg(path)]
        } else {
            Seq::empty()
        }) + spec_issues_entries(es.items@, path),
        Value::Array(arr) => (if arr@.len() == 0 {
            seq![path + ": Empty array"@]
        } else {
            Seq::empty()
        }) + spec_issues_elems(arr@, path),
        Value::Table(t) => if t.rows@.len() == 0 && t.declared_rows > 0 {
            seq![path + ": Table declared with "@ + spec_dec_str(t.declared_rows as nat)
                + " rows but is empty"@]
        } else {
            Seq::empty()
        },
        _ => Seq::empty(),
    }
}

pub open spec fn spec_empty_object_msg(path: Seq<char>) -> Seq<char> {
    if path.len() == 0 {
        "Empty object"@
    } else {
        path + ": Empty object"@
    }
}

/// The child path of an object key.
pub open spec fn spec_obj_child_path(path: Seq<char>, k: Seq<char>) -> Seq<char> {
    if path.len() == 0 {
        k
    } else {
        path + seq!['.'] + k
    }
}

/// The child path of an array index.
pub open spec fn spec_arr_child_path(path: Seq<char>, i: nat) -> Seq<char> {
    path + seq!['['] + spec_dec_str(i) + seq![']']
}

pub open spec fn spec_issues_entries(items: Seq<(String, Value)>, path: Seq<char>) -> Seq<
    Seq<char>,
>
    decreases items, 0nat,
{
    if items.len() == 0 {
        Seq::empty()
    } else {
        spec_issues_entries(items.drop_last(), path) + spec_issues(
            items.last().1,
            spec_obj_child_path(path, items.last().0@),
        )
    }
}

pub open spec fn spec_issues_elems(arr: Seq<Value>, path: Seq<char>) -> Seq<Seq<char>>
    decreases arr, 0nat,
{
    if arr.len() == 0 {
        Seq::empty()
    } else {
        spec_issues_elems(arr.drop_last(), path) + spec_issues(
            arr.last(),
            spec_arr_child_path(path, (arr.len() - 1) as nat),
        )
    }
}


/// The validator is at least as strict as the parser: a tree it accepts
/// satisfies the row-count invariant that every parsed tree carries, so
/// re-checking parsed trees can only fail on schema consistency.
pub proof fn lemma_valid_implies_tables_consistent(v: Value)
    requires
        spec_valid(v),
    ensures
        crate::value::tables_consistent(v),
    decreases v,
{
    match v {
        Value::Array(arr) => {
            assert forall|i: int| 0 <= i < arr@.len() implies crate::value::tables_consistent(
                #[trigger] arr@[i],
            ) by {
                assert(spec_valid(arr@[i]));
                lemma_valid_implies_tables_consistent(arr@[i]);
            }
        },
        Value::Object(es) => {
            assert forall|i: int| 0 <= i < es.items@.len() implies crate::value::tables_consistent(
                #[trigger] es.items@[i].1,
            ) by {
                assert(spec_valid(es.items@[i].1));
                lemma_valid_implies_tables_consistent(es.items@[i].1);
            }
        },
        Value::Table(t) => {
            assert(spec_table_valid(t));
            assert forall|i: int, j: int|
                0 <= i < t.rows@.len() && 0 <= j
                    < t.rows@[i].items@.len() implies crate::value::tables_consistent(
                #[trigger] t.rows@[i].items@[j].1,
            ) by {
                assert(spec_valid(t.rows@[i].items@[j].1));
                lemma_valid_implies_tables_consistent(t.rows@[i].items@[j].1);
            }
        },
        _ => {},
    }
}

proof fn lemma_err_array(v: Value, e: TqError, i: int)
    requires
        v is Array,
        0 <= i < v->Array_0@.len(),
        forall|j: int| 0 <= j < i ==> spec_valid(#[trigger] v->Array_0@[j]),
        !spec_valid(v->Array_0@[i]),
        spec_validate_err(v->Array_0@[i], e),
    ensures
        spec_validate_err(v, e),
{
}

proof fn lemma_err_object(v: Value, e: TqError, i: int)
    requires
        v is Object,
        0 <= i < v->Object_0.items@.len(),
        forall|j: int| 0 <= j < i ==> spec_valid(#[trigger] v->Object_0.items@[j].1),
        !spec_valid(v->Object_0.items@[i].1),
        spec_validate_err(v->Object_0.items@[i].1, e),
    ensures
        spec_validate_err(v, e),
{
}

proof fn lemma_err_table_cell(t: Table, e: TqError, i: int, j: int)
    requires
        t.rows@.len() == t.declared_rows,
        forall|a: int|
            0 <= a < t.rows@.len() ==> key_set(#[trigger] t.rows@[a].items@) == key_set(
                t.rows@[0].items@,
            ),
        0 <= i < t.rows@.len(),
        0 <= j < t.rows@[i].items@.len(),
        forall|a: int, b: int|
            0 <= a < t.rows@.len() && 0 <= b < t.rows@[a].items@.len() && (a < i || (a == i && b
                < j)) ==> spec_valid(#[trigger] t.rows@[a].items@[b].1),
        !spec_valid(t.rows@[i].items@[j].1),
        spec_validate_err(t.rows@[i].items@[j].1, e),
    ensures
        spec_table_err(t, e),
{
}

proof fn lemma_array_elem_invalid(v: Value, i: int)
    requires
        v is Array,
        0 <= i < v->Array_0@.len(),
        !spec_valid(v->Array_0@[i]),
    ensures
        !spec_valid(v),
{
}

proof fn lemma_object_entry_invalid(v: Value, i: int)
    requires
        v is Object,
        0 <= i < v->Object_0.items@.len(),
        !spec_valid(v->Object_0.items@[i].1),
    ensures
        !spec_valid(v),
{
}

proof fn lemma_table_schema_invalid(t: Table, i: int)
    requires
        0 <= i < t.rows@.len(),
        key_set(t.rows@[i].items@) != key_set(t.rows@[0].items@),
    ensures
        !spec_table_valid(t),
{
}

proof fn lemma_table_cell_invalid(t: Table, i: int, j: int)
    requires
        0 <= i < t.rows@.len(),
        0 <= j < t.rows@[i].items@.len(),
        !spec_valid(t.rows@[i].items@[j].1),
    ensures
        !spec_table_valid(t),
{
}

/// The structural validator.
pub struct Validator;

impl Validator {
    /// Validates a tree: `Ok` exactly when every table in it holds its
    /// declared number of rows and has schema-consistent rows. A failure
    /// reports either a row-count mismatch or the first schema-divergent
    /// row of some table.
    pub fn validate(value: &Value) -> (r: Result<(), TqError>)
        ensures
            r is Ok <==> spec_valid(*value),
            r matches Err(e) ==> (e is TableRowMismatch || e is TableSchemaInconsistent),
            // the reported error comes from the first invalid table in
            // traversal order, pinned exactly at that table
            r matches Err(e) ==> spec_validate_err(*value, e),
            // for a table itself, the error is pinned exactly: first the
            // declared-vs-actual count, then the first schema-divergent row
            *value matches Value::Table(t) ==> (t.rows@.len() != t.declared_rows ==> (r matches
                Err(TqError::TableRowMismatch { name, declared, actual }) && name@ == t.name@
                && declared == t.declared_rows && actual == t.rows@.len())),
            *value matches Value::Table(t) ==> ((t.rows@.len() == t.declared_rows && (exists|
                i: int,
            |
                1 <= i < t.rows@.len() && key_set(#[trigger] t.rows@[i].items@) != key_set(
                    t.rows@[0].items@,
                ))) ==> (r matches Err(TqError::TableSchemaInconsistent { name, message }) && name@
                == t.name@ && (exists|i: int|
                {
                    &&& 1 <= i < t.rows@.len()
                    &&& key_set(#[trigger] t.rows@[i].items@) != key_set(t.rows@[0].items@)
                    &&& (forall|j: int|
                        1 <= j < i ==> key_set(#[trigger] t.rows@[j].items@) == key_set(
                            t.rows@[0].items@,
                        ))
                    &&& message@ == spec_schema_message(
                        (i + 1) as nat,
                        spec_diff(t.rows@[0].items@, t.rows@[i].items@),
                        spec_diff(t.rows@[i].items@, t.rows@[0].items@),
                    )
                }))),
        decreases *value,
    {
        match value {
            Value::Object(obj) => Self::validate_object(obj),
            Value::Table(table) => Self::validate_table(table),
            Value::Array(arr) => {
                let n = arr.len();
                let mut i: usize = 0;
                while i < n
                    invariant
                        0 <= i <= n,
                        n == arr@.len(),
                        *value == Value::Array(*arr),
                        forall|j: int| 0 <= j < i ==> spec_valid(#[trigger] arr@[j]),
                    decreases n - i,
                {
                    proof {
                        assert(decreases_to!(*value => value->Array_0@[i as int]));
                        assert(value->Array_0 == *arr);
                    }
                    match Self::validate(&arr[i]) {
                        Ok(()) => {},
                        Err(e) => {
                            proof {
                                assert(!spec_valid(arr@[i as int]));
                                lemma_array_elem_invalid(*value, i as int);
                                lemma_err_array(*value, e, i as int);
                            }
                            return Err(e);
                        },
                    }
                    i = i + 1;
                }
                Ok(())
            },
            _ => Ok(()),
        }
    }

    /// Validates every value of an object.
    fn validate_object(obj: &Entries) -> (r: Result<(), TqError>)
        ensures
            r is Ok <==> spec_valid(Value::Object(*obj)),
            r matches Err(e) ==> (e is TableRowMismatch || e is TableSchemaInconsistent),
            r matches Err(e) ==> spec_validate_err(Value::Object(*obj), e),
        decreases *obj,
    {
        let n = obj.items.len();
        let mut i: usize = 0;
        while i < n
            invariant
                0 <= i <= n,
                n == obj.items@.len(),
                forall|j: int| 0 <= j < i ==> spec_valid(#[trigger] obj.items@[j].1),
            decreases n - i,
        {
            proof {
                assert(decreases_to!(*obj => obj.items@[i as int].1));
            }
            match Self::validate(&obj.items[i].1) {
                Ok(()) => {},
                Err(e) => {
                    proof {
                        assert(!spec_valid(obj.items@[i as int].1));
                        lemma_object_entry_invalid(Value::Object(*obj), i as int);
                        lemma_err_object(Value::Object(*obj), e, i as int);
                    }
                    return Err(e);
                },
            }
            i = i + 1;
        }
        Ok(())
    }

    /// Checks one table: the declared row count first, then each row's key
    /// set against the first row's (stopping at the first divergent row),
    /// then every cell value.
    fn validate_table(table: &Table) -> (r: Result<(), TqError>)
        ensures
            r is Ok <==> spec_table_valid(*table),
            r matches Err(e) ==> (e is TableRowMismatch || e is TableSchemaInconsistent),
            r matches Err(e) ==> spec_table_err(*table, e),
            table.rows@.len() != table.declared_rows ==> (r matches Err(
                TqError::TableRowMismatch { name, declared, actual },
            ) && name@ == table.name@ && declared == table.declared_rows && actual
                == table.rows@.len()),
            (table.rows@.len() == table.declared_rows && (exists|i: int|
                1 <= i < table.rows@.len() && key_set(#[trigger] table.rows@[i].items@) != key_set(
                    table.rows@[0].items@,
                ))) ==> (r matches Err(TqError::TableSchemaInconsistent { name, message }) && name@
                == table.name@ && (exists|i: int|
                {
                    &&& 1 <= i < table.rows@.len()
                    &&& key_set(#[trigger] table.rows@[i].items@) != key_set(
                        table.rows@[0].items@,
                    )
                    &&& (forall|j: int|
                        1 <= j < i ==> key_set(#[trigger] table.rows@[j].items@) == key_set(
                            table.rows@[0].items@,
                        ))
                    &&& message@ == spec_schema_message(
                        (i + 1) as nat,
                        spec_diff(table.rows@[0].items@, table.rows@[i].items@),
                        spec_diff(table.rows@[i].items@, table.rows@[0].items@),
                    )
                })),
        decreases *table,
    {
        let nrows = table.rows.len();
        if nrows != table.declared_rows {
            return Err(
                TqError::TableRowMismatch {
                    name: table.name.clone(),
                    declared: table.declared_rows,
                    actual: nrows,
                },
            );
        }
        let mut i: usize = 1;
        while i < nrows
            invariant
                1 <= i <= nrows || nrows == 0,
                nrows == table.rows@.len(),
                nrows == table.declared_rows,
                forall|j: int|
                    1 <= j < i ==> key_set(#[trigger] table.rows@[j].items@) == key_set(
                        table.rows@[0].items@,
                    ),
            decreases nrows - i,
        {
            let missing = diff_keys(&table.rows[0], &table.rows[i]);
            let extra = diff_keys(&table.rows[i], &table.rows[0]);
            proof {
                lemma_diff_detection_symmetric(table.rows@[0].items@, table.rows@[i as int].items@);
            }
            if missing.len() > 0 || extra.len() > 0 {
                let message = build_schema_message(i + 1, &missing, &extra);
                proof {
                    assert(key_set(table.rows@[i as int].items@) != key_set(
                        table.rows@[0].items@,
                    ));
                    lemma_table_schema_invalid(*table, i as int);
                }
                return Err(
                    TqError::TableSchemaInconsistent { name: table.name.clone(), message },
                );
            }
            i = i + 1;
        }
        // every row's schema equals the first row's; now the cell values
        let mut i: usize = 0;
        while i < nrows
            invariant
                0 <= i <= nrows,
                nrows == table.rows@.len(),
                nrows == table.declared_rows,
                forall|j: int|
                    0 <= j < nrows ==> key_set(#[trigger] table.rows@[j].items@) == key_set(
                        table.rows@[0].items@,
                    ),
                forall|a: int, b: int|
                    0 <= a < i && 0 <= b < table.rows@[a].items@.len() ==> spec_valid(
                        #[trigger] table.rows@[a].items@[b].1,
                    ),
            decreases nrows - i,
        {
            let row = &table.rows[i];
            let m = row.items.len();
            let mut j: usize = 0;
            while j < m
                invariant
                    0 <= j <= m,
                    0 <= i < nrows,
                    nrows == table.rows@.len(),
                    nrows == table.declared_rows,
                    forall|a: int|
                        0 <= a < nrows ==> key_set(#[trigger] table.rows@[a].items@) == key_set(
                            table.rows@[0].items@,
                        ),
                    m == table.rows@[i as int].items@.len(),
                    *row == table.rows@[i as int],
                    forall|a: int, b: int|
                        0 <= a < i && 0 <= b < table.rows@[a].items@.len() ==> spec_valid(
                            #[trigger] table.rows@[a].items@[b].1,
                        ),
                    forall|b: int|
                        0 <= b < j ==> spec_valid(#[trigger] table.rows@[i as int].items@[b].1),
                decreases m - j,
            {
                proof {
                    assert(decreases_to!(*table => table.rows@[i as int].items@[j as int].1));
                }
                match Self::validate(&row.items[j].1) {
                    Ok(()) => {},
                    Err(e) => {
                        proof {
                            assert(!spec_valid(table.rows@[i as int].items@[j as int].1));
                            lemma_table_cell_invalid(*table, i as int, j as int);
                            assert forall|a: int, b: int|
                                0 <= a < table.rows@.len() && 0 <= b
                                    < table.rows@[a].items@.len() && (a < i as int || (a
                                    == i as int && b < j as int)) implies spec_valid(
                                #[trigger] table.rows@[a].items@[b].1,
                            ) by {
                                if a == i as int {
                                    assert(b < j as int);
                                    assert(spec_valid(table.rows@[i as int].items@[b].1));
                                }
                            }
                            lemma_err_table_cell(*table, e, i as int, j as int);
                        }
                        return Err(e);
                    },
                }
                j = j + 1;
            }
            i = i + 1;
        }
        Ok(())
    }

    /// Collects the advisory strings for a tree, rooted at an empty path.
    pub fn check_structure(value: &Value) -> (r: Vec<String>)
        ensures
            r@.map_values(|s: String| s@) == spec_issues(*value, Seq::<char>::empty()),
    {
        let mut issues: Vec<String> = Vec::new();
        let empty = String::new();
        Self::check_structure_recursive(value, empty.as_str(), &mut issues);
        proof {
            assert(issues@.map_values(|s: String| s@) =~= spec_issues(
                *value,
                Seq::<char>::empty(),
            ));
        }
        issues
    }

    /// Walks a subtree, appending its advisories to `issues`.
    fn check_structure_recursive(value: &Value, path: &str, issues: &mut Vec<String>)
        ensures
            final(issues)@.map_values(|s: String| s@) == old(issues)@.map_values(|s: String| s@)
                + spec_issues(*value, path@),
        decreases *value,
    {
        proof {
            assert(old(issues)@.map_values(|s: String| s@) + Seq::<Seq<char>>::empty() =~= old(
                issues,
            )@.map_values(|s: String| s@));
        }
        match value {
            Value::Object(obj) => {
                if obj.items.len() == 0 {
                    let mut msg = String::new();
                    if path.unicode_len() == 0 {
                        msg.append("Empty object");
                    } else {
                        msg.append(path);
                        msg.append(": Empty object");
                    }
                    let ghost before = issues@;
                    issues.push(msg);
                    proof {
                        assert(issues@.map_values(|s: String| s@) =~= before.map_values(
                            |s: String| s@,
                        ) + seq![spec_empty_object_msg(path@)]);
                    }
                }
                let n = obj.items.len();
                let mut i: usize = 0;
                while i < n
                    invariant
                        0 <= i <= n,
                        n == obj.items@.len(),
                        *value == Value::Object(*obj),
                        issues@.map_values(|s: String| s@) == old(issues)@.map_values(
                            |s: String| s@,
                        ) + (if n == 0 {
                            seq![spec_empty_object_msg(path@)]
                        } else {
                            Seq::<Seq<char>>::empty()
                        }) + spec_issues_entries(obj.items@.subrange(0, i as int), path@),
                    decreases n - i,
                {
                    let p = &obj.items[i];
                    let child = if path.unicode_len() == 0 {
                        p.0.clone()
                    } else {
                        let mut c = String::new();
                        c.append(path);
                        c.append(".");
                        c.append(p.0.as_str());
                        proof {
                            reveal_strlit(".");
                            assert(c@ =~= spec_obj_child_path(path@, p.0@));
                        }
                        c
                    };
                    proof {
                        assert(decreases_to!(*value => value->Object_0.items@[i as int].1));
                        assert(value->Object_0 == *obj);
                    }
                    Self::check_structure_recursive(&p.1, child.as_str(), issues);
                    proof {
                        assert(obj.items@.subrange(0, i + 1).drop_last() =~= obj.items@.subrange(
                            0,
                            i as int,
                        ));
                        assert(obj.items@.subrange(0, i + 1).last() == obj.items@[i as int]);
                        assert(issues@.map_values(|s: String| s@) =~= old(issues)@.map_values(
                            |s: String| s@,
                        ) + (if n == 0 {
                            seq![spec_empty_object_msg(path@)]
                        } else {
                            Seq::<Seq<char>>::empty()
                        }) + spec_issues_entries(obj.items@.subrange(0, i + 1), path@));
                    }
                    i = i + 1;
                }
                proof {
                    assert(obj.items@.subrange(0, n as int) =~= obj.items@);
                    assert(issues@.map_values(|s: String| s@) =~= old(issues)@.map_values(
                        |s: String| s@,
                    ) + spec_issues(*value, path@));
                }
            },
            Value::Array(arr) => {
                if arr.len() == 0 {
                    let mut msg = String::new();
                    msg.append(path);
                    msg.append(": Empty array");
                    let ghost before = issues@;
                    issues.push(msg);
                    proof {
                        reveal_strlit(": Empty array");
                        assert(issues@.map_values(|s: String| s@) =~= before.map_values(
                            |s: String| s@,
                        ) + seq![path@ + ": Empty array"@]);
                    }
                }
                let n = arr.len();
                let mut i: usize = 0;
                while i < n
                    invariant
                        0 <= i <= n,
                        n == arr@.len(),
                        *value == Value::Array(*arr),
                        issues@.map_values(|s: String| s@) == old(issues)@.map_values(
                            |s: String| s@,
                        ) + (if n == 0 {
                            seq![path@ + ": Empty array"@]
                        } else {
                            Seq::<Seq<char>>::empty()
                        }) + spec_issues_elems(arr@.subrange(0, i as int), path@),
                    decreases n - i,
                {
                    let mut c = String::new();
                    c.append(path);
                    c.append("[");
                    let num = usize_to_string(i);
                    c.append(num.as_str());
                    c.append("]");
                    proof {
                        reveal_strlit("[");
                        reveal_strlit("]");
                        assert(c@ =~= spec_arr_child_path(path@, i as nat));
                        assert(decreases_to!(*value => value->Array_0@[i as int]));
                        assert(value->Array_0 == *arr);
                    }
                    Self::check_structure_recursive(&arr[i], c.as_str(), issues);
                    proof {
                        assert(arr@.subrange(0, i + 1).drop_last() =~= arr@.subrange(0, i as int));
                        assert(arr@.subrange(0, i + 1).last() == arr@[i as int]);
                        assert(issues@.map_values(|s: String| s@) =~= old(issues)@.map_values(
                            |s: String| s@,
                        ) + (if n == 0 {
                            seq![path@ + ": Empty array"@]
                        } else {
                            Seq::<Seq<char>>::empty()
                        }) + spec_issues_elems(arr@.subrange(0, i + 1), path@));
                    }
                    i = i + 1;
                }
                proof {
                    assert(arr@.subrange(0, n as int) =~= arr@);
                    assert(issues@.map_values(|s: String| s@) =~= old(issues)@.map_values(
                        |s: String| s@,
                    ) + spec_issues(*value, path@));
                }
            },
            Value::Table(t) => {
                if t.rows.len() == 0 && t.declared_rows > 0 {
                    let mut msg = String::new();
                    msg.append(path);
                    msg.append(": Table declared with ");
                    let num = usize_to_string(t.declared_rows);
                    msg.append(num.as_str());
                    msg.append(" rows but is empty");
                    let ghost before = issues@;
                    issues.push(msg);
                    proof {
                        assert(issues@.map_values(|s: String| s@) =~= before.map_values(
                            |s: String| s@,
                        ) + spec_issues(*value, path@));
                    }
                }
            },
            _ => {},
        }
    }
}

/// The keys of `a`, in order, that `b` lacks.
fn diff_keys(a: &Entries, b: &Entries) -> (r: Vec<String>)
    ensures
        r@.map_values(|s: String| s@) == spec_diff(a.items@, b.items@),
{
    let n = a.items.len();
    let mut out: Vec<String> = Vec::new();
    let mut i: usize = 0;
    while i < n
        invariant
            0 <= i <= n,
            n == a.items@.len(),
            out@.map_values(|s: String| s@) == spec_diff(a.items@.subrange(0, i as int), b.items@),
        decreases n - i,
    {
        let k = &a.items[i].0;
        let present = match b.get(k.as_str()) {
            Some(_) => true,
            None => false,
        };
        proof {
            lemma_get_some_iff_present(b.items@, k@);
            assert(a.items@.subrange(0, i + 1).drop_last() =~= a.items@.subrange(0, i as int));
            assert(a.items@.subrange(0, i + 1).last() == a.items@[i as int]);
        }
        if !present {
            let ghost before = out@;
            out.push(k.clone());
            proof {
                assert(out@.map_values(|s: String| s@) =~= before.map_values(|s: String| s@).push(
                    k@,
                ));
            }
        }
        proof {
            assert(out@.map_values(|s: String| s@) =~= spec_diff(
                a.items@.subrange(0, i + 1),
                b.items@,
            ));
        }
        i = i + 1;
    }
    proof {
        assert(a.items@.subrange(0, n as int) =~= a.items@);
    }
    out
}

proof fn lemma_get_some_iff_present(items: Seq<(String, Value)>, k: Seq<char>)
    ensures
        (crate::value::spec_get_from(items, k) is Some) <==> key_present(items, k),
    decreases items.len(),
{
    if items.len() > 0 && items[0].0@ != k {
        lemma_get_some_iff_present(items.drop_first(), k);
        if key_present(items.drop_first(), k) {
            let i = choose|i: int|
                0 <= i < items.drop_first().len() && items.drop_first()[i].0@ == k;
            assert(items[i + 1].0@ == k);
        }
        if key_present(items, k) {
            let i = choose|i: int| 0 <= i < items.len() && items[i].0@ == k;
            assert(i > 0);
            assert(items.drop_first()[i - 1].0@ == k);
        }
    }
}

/// Renders the schema-inconsistency message for 1-based row `n`.
fn build_schema_message(n: usize, missing: &Vec<String>, extra: &Vec<String>) -> (r: String)
    ensures
        r@ == spec_schema_message(
            n as nat,
            missing@.map_values(|s: String| s@),
            extra@.map_values(|s: String| s@),
        ),
{
    let mut msg = String::from_str("Row ");
    let num = usize_to_string(n);
    msg.append(num.as_str());
    msg.append(" has different schema. ");
    if missing.len() > 0 {
        msg.append("Missing fields: ");
        let lst = quoted_list(missing);
        msg.append(lst.as_str());
        msg.append(". ");
    }
    if extra.len() > 0 {
        msg.append("Extra fields: ");
        let lst = quoted_list(extra);
        msg.append(lst.as_str());
        msg.append(". ");
    }
    proof {
        assert(msg@ =~= spec_schema_message(
            n as nat,
            missing@.map_values(|s: String| s@),
            extra@.map_values(|s: String| s@),
        ));
    }
    msg
}

/// Renders keys as a bracketed list of double-quoted names.
fn quoted_list(ks: &Vec<String>) -> (r: String)
    ensures
        r@ == spec_quoted_list(ks@.map_values(|s: String| s@)),
{
    let mut out = String::from_str("[");
    proof {
        reveal_strlit("[");
        assert(out@ =~= seq!['['] + spec_quoted_items(
            ks@.map_values(|s: String| s@).subrange(0, 0),
        ));
    }
    let n = ks.len();
    let mut i: usize = 0;
    while i < n
        invariant
            0 <= i <= n,
            n == ks@.len(),
            out@ == seq!['['] + spec_quoted_items(ks@.map_values(|s: String| s@).subrange(
                0,
                i as int,
            )),
        decreases n - i,
    {
        if i > 0 {
            out.append(", ");
        }
        out.append("\"");
        out.append(ks[i].as_str());
        out.append("\"");
        proof {
            reveal_strlit("[");
            reveal_strlit(", ");
            reveal_strlit("\"");
            let kv = ks@.map_values(|s: String| s@);
            assert(kv.subrange(0, i + 1).drop_last() =~= kv.subrange(0, i as int));
            assert(kv.subrange(0, i + 1).last() == kv[i as int]);
            assert(out@ =~= seq!['['] + spec_quoted_items(kv.subrange(0, i + 1)));
        }
        i = i + 1;
    }
    out.append("]");
    proof {
        reveal_strlit("[");
        reveal_strlit("]");
        let kv = ks@.map_values(|s: String| s@);
        assert(kv.subrange(0, n as int) =~= kv);
        assert(out@ =~= spec_quoted_list(kv));
    }
    out
}

} // verus!
