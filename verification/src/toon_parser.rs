//! The indentation-driven TOON parser: a line cursor walked by recursive
//! descent, with the nesting depth passed down as an expected indent.
//!
//! Lines more indented than expected are consumed and skipped, so a scan
//! always makes progress; dedenting below the expected indent returns to the
//! caller. A parsed table always satisfies `rows.len() == declared_rows`:
//! any mismatch surfaces as `TqError::TableRowMismatch` before the table is
//! materialized.

use vstd::prelude::*;
use vstd::string::*;

use crate::error::TqError;
use crate::number::{is_numeric, is_special_body, lemma_numeric_first_char, lemma_numeric_last_char, spec_is_numeric, spec_strip_sign, is_number_body};
use crate::text::{
    dec_val, find_char, first_idx, indent_of, is_digit, is_space, is_usize_text, lead_ws,
    lemma_first_idx_from_chars, lemma_first_idx_range, lemma_trim_len, parse_usize, rfind_char,
    spec_indent, spec_trim, str_eq, strip_plus, trail_ws, trim,
};
use crate::value::{tables_consistent, entries_consistent, entries_wf, value_wf, Entries, Table, Value};

verus! {

/// Whether `t` is wrapped in matching double or single quotes.
pub open spec fn is_quote_wrapped(t: Seq<char>) -> bool {
    t.len() >= 2 && ((t[0] == '"' && t.last() == '"') || (t[0] == '\'' && t.last() == '\''))
}

/// Whether `t` is wrapped in square brackets.
pub open spec fn is_bracket_wrapped(t: Seq<char>) -> bool {
    t.len() >= 2 && t[0] == '[' && t.last() == ']'
}

/// What the scalar literal grammar makes of `s`: after trimming, exactly
/// `null`, `true` or `false`; a quoted string (quotes stripped, no escape
/// processing); a numeric literal; an inline array, split on every comma;
/// or, failing all of those, the trimmed text itself as a string.
pub open spec fn spec_simple_matches(s: Seq<char>, v: Value) -> bool
    decreases s.len(), 0nat,
    via spec_simple_matches_dec
{
    let t = spec_trim(s);
    if t == "null"@ {
        v is Null
    } else if t == "true"@ {
        v == (Value::Bool(true))
    } else if t == "false"@ {
        v == (Value::Bool(false))
    } else if is_quote_wrapped(t) {
        v matches Value::String(x) && x@ == t.subrange(1, t.len() - 1)
    } else if spec_is_numeric(t) {
        v matches Value::Number(x) && x@ == t
    } else if is_bracket_wrapped(t) {
        v matches Value::Array(elems) && spec_array_items_match(t.subrange(1, t.len() - 1), elems@)
    } else {
        v matches Value::String(x) && x@ == t
    }
}

/// The comma split of an inline array body: one element per comma-separated
/// piece, commas inside quotes or nested brackets not excepted.
pub open spec fn spec_array_items_match(inner: Seq<char>, elems: Seq<Value>) -> bool
    decreases inner.len(), 1nat,
    via spec_array_items_match_dec
{
    let c = first_idx(inner, |ch: char| ch == ',');
    if c == -1 {
        elems.len() == 1 && spec_simple_matches(inner, elems[0])
    } else {
        &&& elems.len() >= 1
        &&& spec_simple_matches(inner.subrange(0, c), elems[0])
        &&& spec_array_items_match(inner.subrange(c + 1, inner.len() as int), elems.drop_first())
    }
}

#[via_fn]
proof fn spec_simple_matches_dec(s: Seq<char>, v: Value) {
    lemma_trim_len(s);
}

#[via_fn]
proof fn spec_array_items_match_dec(inner: Seq<char>, elems: Seq<Value>) {
    lemma_first_idx_range(inner, |ch: char| ch == ',');
}

/// Index of the first colon, or -1.
pub open spec fn colon_idx(line: Seq<char>) -> int {
    first_idx(line, |c: char| c == ':')
}

/// Trailing `]` characters, dropped.
pub open spec fn strip_trailing_brackets(s: Seq<char>) -> Seq<char>
    decreases s.len(),
{
    if s.len() > 0 && s.last() == ']' {
        strip_trailing_brackets(s.drop_last())
    } else {
        s
    }
}

/// Index of the last colon, or -1.
pub open spec fn last_colon_idx(s: Seq<char>) -> int
    decreases s.len(),
{
    if s.len() == 0 {
        -1
    } else if s.last() == ':' {
        s.len() - 1
    } else {
        last_colon_idx(s.drop_last())
    }
}

/// The count text of a table header `name[count]:`: what stands between the
/// first `[` and the last `:`, with trailing `]`s dropped, trimmed.
pub open spec fn header_count_text(line: Seq<char>, b: int, c: int) -> Seq<char> {
    spec_trim(strip_trailing_brackets(line.subrange(b + 1, c)))
}

/// Whether a line has the table-header shape: a `[` before the last `:`,
/// and a count that reads as a `usize`.
pub open spec fn is_table_header(line: Seq<char>) -> bool {
    let b = first_idx(line, |ch: char| ch == '[');
    let c = last_colon_idx(line);
    b >= 0 && c >= 0 && b < c && is_usize_text(header_count_text(line, b, c))
}

/// The declared name of a table header: what precedes the `[`, trimmed.
pub open spec fn header_name(line: Seq<char>) -> Seq<char> {
    spec_trim(line.subrange(0, first_idx(line, |ch: char| ch == '[')))
}

/// The declared row count of a table header.
pub open spec fn header_count(line: Seq<char>) -> nat {
    let b = first_idx(line, |ch: char| ch == '[');
    let c = last_colon_idx(line);
    dec_val(strip_plus(header_count_text(line, b, c)))
}

proof fn lemma_last_colon_from_chars(s: Seq<char>, i: int)
    requires
        -1 <= i < s.len(),
        i >= 0 ==> s[i] == ':',
        forall|j: int| i < j < s.len() ==> s[j] != ':',
    ensures
        last_colon_idx(s) == i,
    decreases s.len(),
{
    if s.len() > 0 && s.last() != ':' {
        lemma_last_colon_from_chars(s.drop_last(), i);
    }
}

proof fn lemma_strip_brackets_from_chars(s: Seq<char>, e: int)
    requires
        0 <= e <= s.len(),
        forall|j: int| e <= j < s.len() ==> s[j] == ']',
        e == 0 || s[e - 1] != ']',
    ensures
        strip_trailing_brackets(s) == s.subrange(0, e),
    decreases s.len(),
{
    if e == s.len() {
        assert(s.subrange(0, e) =~= s);
        if s.len() > 0 && s.last() == ']' {
            lemma_strip_brackets_from_chars(s.drop_last(), e - 1);
            assert(s.drop_last().subrange(0, e - 1) =~= s.subrange(0, e - 1));
            assert(false);
        }
    } else {
        assert(s.last() == ']');
        lemma_strip_brackets_from_chars(s.drop_last(), e);
        assert(s.drop_last().subrange(0, e) =~= s.subrange(0, e));
    }
}

/// The lines of `s`: split at `\n`, a `\r` before the `\n` dropped, no
/// final empty line for a trailing newline.
pub open spec fn spec_lines(s: Seq<char>) -> Seq<Seq<char>>
    decreases s.len(),
    via spec_lines_dec
{
    if s.len() == 0 {
        Seq::empty()
    } else {
        let n = first_idx(s, |c: char| c == '\n');
        if n == -1 {
            seq![s]
        } else {
            seq![strip_cr(s.subrange(0, n))] + spec_lines(s.subrange(n + 1, s.len() as int))
        }
    }
}

#[via_fn]
proof fn spec_lines_dec(s: Seq<char>) {
    lemma_first_idx_range(s, |c: char| c == '\n');
}

/// One trailing carriage return, dropped.
pub open spec fn strip_cr(line: Seq<char>) -> Seq<char> {
    if line.len() > 0 && line.last() == '\r' {
        line.drop_last()
    } else {
        line
    }
}

/// The views of a sequence of strings.
pub open spec fn views_of(lines: Seq<String>) -> Seq<Seq<char>> {
    lines.map_values(|l: String| l@)
}

/// The saturating child indent, two deeper.
pub open spec fn child_indent(indent: int) -> int {
    if indent + 2 > usize::MAX {
        usize::MAX as int
    } else {
        indent + 2
    }
}

/// Whether the trimmed line `t` binds the pair `p`: the key is the trimmed
/// text before the first colon; the value is `Null` for an empty right-hand
/// side, else what the scalar grammar reads from it.
pub open spec fn kv_line_binds(t: Seq<char>, p: (String, Value)) -> bool {
    let c = colon_idx(t);
    let rhs = t.subrange(c + 1, t.len() as int);
    &&& c >= 0
    &&& p.0@ == spec_trim(t.subrange(0, c))
    &&& (if spec_trim(rhs).len() == 0 {
        p.1 is Null
    } else {
        spec_simple_matches(rhs, p.1)
    })
}

/// Whether the trimmed line `t` has an empty value portion after its colon:
/// the nested-object marker.
pub open spec fn kv_rhs_empty(t: Seq<char>) -> bool {
    spec_trim(t.subrange(colon_idx(t) + 1, t.len() as int)).len() == 0
}

/// What `insert` does to an entry list: overwrite the first entry with the
/// same key in place, else append.
pub open spec fn ins(items: Seq<(String, Value)>, p: (String, Value)) -> Seq<(String, Value)> {
    let idx = crate::value::spec_key_index(items, p.0@);
    if idx >= 0 {
        items.update(idx, p)
    } else {
        items.push(p)
    }
}

/// Whether the trimmed line `t` starts a table row.
pub open spec fn is_row_marker(t: Seq<char>) -> bool {
    t.len() >= 2 && t[0] == '-' && t[1] == ' '
}

/// Whether the trimmed line `t` is blank or a comment.
pub open spec fn is_blank_or_comment(t: Seq<char>) -> bool {
    t.len() == 0 || t[0] == '#'
}

/// The field a `- key: value` row-marker line contributes before the
/// following lines are scanned: nothing when the dash stands alone or what
/// follows it has no colon, else the one pair the text after the dash binds.
pub open spec fn row_first_field(t: Seq<char>, row0: Seq<(String, Value)>) -> bool {
    let ad = t.subrange(2, t.len() as int);
    if ad.len() == 0 {
        row0 =~= Seq::<(String, Value)>::empty()
    } else if colon_idx(ad) >= 0 {
        exists|p: (String, Value)|
            #[trigger] kv_line_binds(ad, p) && row0 =~= Seq::<(String, Value)>::empty().push(p)
    } else {
        row0 =~= Seq::<(String, Value)>::empty()
    }
}

/// The row-field scan, line by line from `cur`: collects `key: value`
/// pairs strictly at `indent` into the accumulated row; stops at the end of
/// input, a dedent, a row marker, or a non-pair line at this indent;
/// consumes blank, comment and deeper lines.
pub open spec fn prow_rel(
    lines: Seq<Seq<char>>,
    cur: int,
    indent: int,
    before: Seq<(String, Value)>,
    after: Seq<(String, Value)>,
    end: int,
) -> bool
    decreases lines.len() - cur, 0nat,
{
    if cur < 0 || cur >= lines.len() {
        after == before && end == cur
    } else {
        let l = lines[cur];
        let li = spec_indent(l);
        if li < indent {
            after == before && end == cur
        } else {
            let t = spec_trim(l);
            if is_blank_or_comment(t) {
                prow_rel(lines, cur + 1, indent, before, after, end)
            } else if is_row_marker(t) {
                after == before && end == cur
            } else if li == indent {
                if colon_idx(t) >= 0 {
                    exists|p: (String, Value)|
                        #[trigger] kv_line_binds(t, p) && prow_rel(
                            lines,
                            cur + 1,
                            indent,
                            ins(before, p),
                            after,
                            end,
                        )
                } else {
                    after == before && end == cur
                }
            } else {
                prow_rel(lines, cur + 1, indent, before, after, end)
            }
        }
    }
}

/// The row scan of a table, from `cur` at `expected` indentation: stops at
/// the end of input, once `declared` rows stand collected, or on a dedent;
/// a row-marker line contributes its own field and then its following
/// lines; every other line at or beyond the expected indent is consumed.
pub open spec fn prows_rel(
    lines: Seq<Seq<char>>,
    cur: int,
    expected: int,
    declared: nat,
    before: Seq<Entries>,
    after: Seq<Entries>,
    end: int,
) -> bool
    decreases lines.len() - cur, 1nat,
{
    if cur < 0 || cur >= lines.len() || before.len() >= declared {
        after == before && end == cur
    } else {
        let l = lines[cur];
        let li = spec_indent(l);
        if li < expected {
            after == before && end == cur
        } else {
            let t = spec_trim(l);
            if is_blank_or_comment(t) {
                prows_rel(lines, cur + 1, expected, declared, before, after, end)
            } else if is_row_marker(t) {
                exists|row: Entries, row0: Seq<(String, Value)>, rend: int|
                    {
                        &&& cur + 1 <= rend <= lines.len()
                        &&& row_first_field(t, row0)
                        &&& #[trigger] prow_rel(
                            lines,
                            cur + 1,
                            child_indent(expected),
                            row0,
                            row.items@,
                            rend,
                        )
                        &&& prows_rel(lines, rend, expected, declared, before.push(row), after, end)
                    }
            } else {
                prows_rel(lines, cur + 1, expected, declared, before, after, end)
            }
        }
    }
}

/// One table section: its rows are scanned at two past the parent indent;
/// exactly the declared count yields the table, any other count yields the
/// row-mismatch error carrying the scanned count.
pub open spec fn pt_rel(
    lines: Seq<Seq<char>>,
    cur: int,
    namev: Seq<char>,
    declared: nat,
    parent_indent: int,
    tr: Result<Table, TqError>,
    end: int,
) -> bool
    decreases lines.len() - cur, 2nat,
{
    exists|rows: Seq<Entries>, rend: int|
        {
            &&& cur <= rend <= lines.len()
            &&& #[trigger] prows_rel(
                lines,
                cur,
                child_indent(parent_indent),
                declared,
                Seq::<Entries>::empty(),
                rows,
                rend,
            )
            &&& end == rend
            &&& (if rows.len() == declared {
                tr matches Ok(tbl) && tbl.name@ == namev && tbl.declared_rows == declared
                    && tbl.rows@ == rows
            } else {
                tr matches Err(e) && e matches TqError::TableRowMismatch {
                    name,
                    declared: d2,
                    actual,
                } && name@ == namev && d2 == declared && actual == rows.len()
            })
        }
}

/// The side conditions of one table section inside the object scan: the
/// header's section scanned as a table from the next line, yielding `tr`
/// at `tend`, and, on success, the pair `p` binding the header's name to
/// the table.
pub open spec fn table_ok_step(
    lines: Seq<Seq<char>>,
    cur: int,
    indent: int,
    t: Seq<char>,
    tr: Result<Table, TqError>,
    tend: int,
    p: (String, Value),
) -> bool {
    &&& cur + 1 <= tend <= lines.len()
    &&& pt_rel(lines, cur + 1, header_name(t), header_count(t), indent, tr, tend)
    &&& tr is Ok
    &&& p.1 == Value::Table(tr->Ok_0)
    &&& p.0@ == header_name(t)
}

/// As `table_ok_step`, for a section whose row scan missed its declared
/// count.
pub open spec fn table_err_step(
    lines: Seq<Seq<char>>,
    cur: int,
    indent: int,
    t: Seq<char>,
    tr: Result<Table, TqError>,
    tend: int,
) -> bool {
    &&& cur + 1 <= tend <= lines.len()
    &&& pt_rel(lines, cur + 1, header_name(t), header_count(t), indent, tr, tend)
    &&& tr is Err
}

/// The binding a nested-object region produces: the pair `p` carries the
/// key before the colon and an object holding exactly the deeper region's
/// items `n`. The deeper scan's result `rn` and end position `nend` are
/// carried alongside so that one fact names the whole step.
pub open spec fn nested_binding(
    t: Seq<char>,
    n: Seq<(String, Value)>,
    rn: Result<(), TqError>,
    nend: int,
    p: (String, Value),
) -> bool {
    &&& p.0@ == spec_trim(t.subrange(0, colon_idx(t)))
    &&& p.1 is Object
    &&& p.1->Object_0.items@ == n
}

/// The object scan, line by line from `cur` at `indent`, accumulating
/// bindings: stops with `Ok` at the end of input or a dedent; consumes
/// blank, comment and deeper lines; a table-header line binds its name to
/// the table its section yields, a `key:` line with an empty value portion
/// and a deeper next line binds the key to the object the deeper region
/// yields two levels in, any other `key: value` line binds per the scalar
/// grammar (later bindings overwriting earlier ones); the first line that
/// is none of these fails the scan with that line's number and trimmed
/// text, and an error inside a section is passed up unchanged.
pub open spec fn pv_rel(
    lines: Seq<Seq<char>>,
    cur: int,
    indent: int,
    before: Seq<(String, Value)>,
    after: Seq<(String, Value)>,
    r: Result<(), TqError>,
    end: int,
) -> bool
    decreases lines.len() - cur, 3nat,
{
    if cur < 0 || cur >= lines.len() {
        r is Ok && after == before && end == cur
    } else {
        let l = lines[cur];
        let li = spec_indent(l);
        if li < indent {
            r is Ok && after == before && end == cur
        } else if li > indent {
            pv_rel(lines, cur + 1, indent, before, after, r, end)
        } else {
            let t = spec_trim(l);
            if is_blank_or_comment(t) {
                pv_rel(lines, cur + 1, indent, before, after, r, end)
            } else if is_table_header(t) {
                (exists|tr: Result<Table, TqError>, tend: int, p: (String, Value)|
                    #[trigger] table_ok_step(lines, cur, indent, t, tr, tend, p) && cur + 1 <= tend
                        <= lines.len() && pv_rel(lines, tend, indent, ins(before, p), after, r, end)) || (exists|tr: Result<Table, TqError>, tend: int|
                    #[trigger] table_err_step(lines, cur, indent, t, tr, tend) && r == Err::<
                        (),
                        TqError,
                    >(tr->Err_0) && end == tend)
            } else if colon_idx(t) >= 0 {
                if kv_rhs_empty(t) && cur + 1 < lines.len() && spec_indent(lines[cur + 1])
                    > indent {
                    exists|rn: Result<(), TqError>, n: Seq<(String, Value)>, nend: int, p: (
                        String,
                        Value,
                    )|
                        {
                            &&& #[trigger] nested_binding(t, n, rn, nend, p)
                            &&& cur + 1 <= nend <= lines.len()
                            &&& pv_rel(
                                lines,
                                cur + 1,
                                child_indent(indent),
                                Seq::<(String, Value)>::empty(),
                                n,
                                rn,
                                nend,
                            )
                            &&& (rn is Ok ==> pv_rel(
                                lines,
                                nend,
                                indent,
                                ins(before, p),
                                after,
                                r,
                                end,
                            ))
                            &&& (rn is Err ==> r == Err::<(), TqError>(rn->Err_0) && end == nend)
                        }
                } else {
                    exists|p: (String, Value)|
                        #[trigger] kv_line_binds(t, p) && pv_rel(
                            lines,
                            cur + 1,
                            indent,
                            ins(before, p),
                            after,
                            r,
                            end,
                        )
                }
            } else {
                &&& r matches Err(e) && e matches TqError::Parse { line, message } && line == cur
                    + 1 && message@ == "Invalid syntax: "@ + t
                &&& end == cur
            }
        }
    }
}

/// The errors the parser can report: a malformed line, with its 1-based
/// number and its trimmed text, or a row-count mismatch.
pub open spec fn parse_err_shape(e: TqError, linesv: Seq<Seq<char>>) -> bool {
    ||| (e matches TqError::Parse { line, message } && 1 <= line <= linesv.len() && message@
        == "Invalid syntax: "@ + spec_trim(linesv[line - 1]))
    ||| (e matches TqError::TableRowMismatch { name, declared, actual } && declared != actual)
}

/// The stateful TOON parser; `parse` is its whole surface.
pub struct ToonParser;

impl ToonParser {
    /// Parses a whole document. A success is always an object, and every
    /// table in it has exactly as many rows as its header declared. A
    /// failure reports the first malformed line, or the first table whose
    /// row scan ended on a count other than the declared one.
    pub fn parse(input: &str) -> (r: Result<Value, TqError>)
        ensures
            r matches Ok(v) ==> v is Object && tables_consistent(v) && value_wf(v),
            // a success is exactly what the line scan yields from an empty
            // object at the top level
            r matches Ok(v) ==> (v matches Value::Object(o) && (exists|
                rr: Result<(), TqError>,
                end: int,
            |
                rr is Ok && #[trigger] pv_rel(
                    spec_lines(input@),
                    0,
                    0,
                    Seq::<(String, Value)>::empty(),
                    o.items@,
                    rr,
                    end,
                ))),
            // a failure is exactly a failing line scan from the top level
            r matches Err(e) ==> (exists|
                rr: Result<(), TqError>,
                after: Seq<(String, Value)>,
                end: int,
            |
                rr is Err && rr->Err_0 == e && #[trigger] pv_rel(
                    spec_lines(input@),
                    0,
                    0,
                    Seq::<(String, Value)>::empty(),
                    after,
                    rr,
                    end,
                )),
            // an empty document is exactly the empty object
            spec_lines(input@).len() == 0 ==> (r matches Ok(v) && v matches Value::Object(o)
                && o.items@.len() == 0),
            r matches Err(e) ==> parse_err_shape(e, spec_lines(input@)),
    {
        let lines = split_lines_from(input, 0);
        proof {
            assert(input@.subrange(0, input@.len() as int) =~= input@);
        }
        let mut obj = Entries::new();
        let res = parse_value_at(&lines, 0, 0, &mut obj);
        proof {
            if spec_lines(input@).len() == 0 {
                assert(views_of(lines@).len() == 0);
                assert(lines@.len() == 0);
                assert(obj.items@.len() == 0);
            }
            assert(views_of(lines@) == spec_lines(input@));
            assert(pv_rel(
                spec_lines(input@),
                0,
                0,
                Seq::<(String, Value)>::empty(),
                obj.items@,
                res.0,
                res.1 as int,
            ));
        }
        match res.0 {
            Ok(()) => {
                let out: Result<Value, TqError> = Ok(Value::Object(obj));
                proof {
                    assert(res.0 is Ok);
                    assert(out->Ok_0->Object_0.items@ == obj.items@);
                    assert(exists|rr: Result<(), TqError>, end: int|
                        rr is Ok && #[trigger] pv_rel(
                            spec_lines(input@),
                            0,
                            0,
                            Seq::<(String, Value)>::empty(),
                            out->Ok_0->Object_0.items@,
                            rr,
                            end,
                        ));
                }
                out
            },
            Err(e) => Err(e),
        }
    }

    /// The indentation depth of a line: its leading space characters.
    pub fn count_indent(line: &str) -> (r: usize)
        ensures
            r == spec_indent(line@),
    {
        indent_of(line)
    }

    /// Recognizes the table-header shape `name[count]:`, yielding the
    /// trimmed name and the declared row count.
    pub fn parse_table_header(line: &str) -> (r: Option<(String, usize)>)
        ensures
            match r {
                Some(p) => is_table_header(line@) && p.0@ == header_name(line@) && p.1
                    == header_count(line@),
                None => !is_table_header(line@),
            },
    {
        let len = line.unicode_len();
        let b = match find_char(line, '[') {
            Some(b) => b,
            None => {
                proof {
                    lemma_first_idx_from_chars(line@, |ch: char| ch == '[', len as int);
                }
                return None;
            },
        };
        proof {
            lemma_first_idx_from_chars(line@, |ch: char| ch == '[', b as int);
        }
        let c = match rfind_char(line, ':') {
            Some(c) => c,
            None => {
                proof {
                    lemma_last_colon_from_chars(line@, -1);
                }
                return None;
            },
        };
        proof {
            lemma_last_colon_from_chars(line@, c as int);
        }
        if b >= c {
            return None;
        }
        let raw = line.substring_char(b + 1, c);
        let rlen = raw.unicode_len();
        let mut e = rlen;
        while e > 0 && raw.get_char(e - 1) == ']'
            invariant
                0 <= e <= rlen,
                rlen == raw@.len(),
                forall|j: int| e <= j < rlen ==> raw@[j] == ']',
            decreases e,
        {
            e = e - 1;
        }
        proof {
            lemma_strip_brackets_from_chars(raw@, e as int);
        }
        let stripped = raw.substring_char(0, e);
        let num = trim(stripped);
        proof {
            assert(raw@ =~= line@.subrange(b as int + 1, c as int));
            assert(num@ == header_count_text(line@, b as int, c as int));
        }
        match parse_usize(num) {
            Some(n) => {
                let name = trim(line.substring_char(0, b)).to_owned();
                proof {
                    assert(line@.subrange(0, b as int) =~= line@.subrange(0, b as int));
                }
                Some((name, n))
            },
            None => None,
        }
    }

    /// Splits a line at its first colon into a trimmed key and a value:
    /// an empty right-hand side reads as `Null` (the nested-object marker),
    /// anything else goes through the scalar literal grammar. A line
    /// without a colon is no key/value pair.
    pub fn parse_key_value(line: &str) -> (r: Option<(String, Value)>)
        ensures
            match r {
                Some(kv) => {
                    let c = colon_idx(line@);
                    let rhs = line@.subrange(c + 1, line@.len() as int);
                    &&& c >= 0
                    &&& kv.0@ == spec_trim(line@.subrange(0, c))
                    &&& (if spec_trim(rhs).len() == 0 {
                        kv.1 is Null
                    } else {
                        spec_simple_matches(rhs, kv.1)
                    })
                    &&& tables_consistent(kv.1)
                    &&& value_wf(kv.1)
                },
                None => colon_idx(line@) == -1,
            },
    {
        let len = line.unicode_len();
        match find_char(line, ':') {
            None => {
                proof {
                    lemma_first_idx_from_chars(line@, |c: char| c == ':', len as int);
                }
                None
            },
            Some(c) => {
                proof {
                    lemma_first_idx_from_chars(line@, |c0: char| c0 == ':', c as int);
                }
                let key = trim(line.substring_char(0, c)).to_owned();
                let rhs = line.substring_char(c + 1, len);
                let rt = trim(rhs);
                if rt.unicode_len() == 0 {
                    Some((key, Value::Null))
                } else {
                    let value = Self::parse_simple_value(rhs);
                    Some((key, value))
                }
            },
        }
    }

    /// Applies the scalar literal grammar to `s`.
    pub fn parse_simple_value(s: &str) -> (r: Value)
        ensures
            spec_simple_matches(s@, r),
            tables_consistent(r),
            value_wf(r),
        decreases s@.len(), 0nat,
    {
        let t = trim(s);
        let tlen = t.unicode_len();
        if str_eq(t, "null") {
            return Value::Null;
        }
        if str_eq(t, "true") {
            return Value::Bool(true);
        }
        if str_eq(t, "false") {
            return Value::Bool(false);
        }
        if tlen >= 2 {
            let c0 = t.get_char(0);
            let cl = t.get_char(tlen - 1);
            if (c0 == '"' && cl == '"') || (c0 == '\'' && cl == '\'') {
                let inner = t.substring_char(1, tlen - 1);
                return Value::String(inner.to_owned());
            }
        }
        if is_numeric(t) {
            return Value::Number(t.to_owned());
        }
        if tlen >= 2 && t.get_char(0) == '[' && t.get_char(tlen - 1) == ']' {
            let inner = t.substring_char(1, tlen - 1);
            proof {
                lemma_trim_len(s@);
            }
            let elems = Self::parse_array_items(inner);
            return Value::Array(elems);
        }
        Value::String(t.to_owned())
    }

    /// Parses the comma-separated pieces of an inline array body.
    fn parse_array_items(inner: &str) -> (r: Vec<Value>)
        ensures
            spec_array_items_match(inner@, r@),
            forall|i: int| 0 <= i < r@.len() ==> tables_consistent(#[trigger] r@[i]),
            forall|i: int| 0 <= i < r@.len() ==> value_wf(#[trigger] r@[i]),
        decreases inner@.len(), 1nat,
    {
        let len = inner.unicode_len();
        match find_char(inner, ',') {
            None => {
                proof {
                    lemma_first_idx_from_chars(inner@, |ch: char| ch == ',', len as int);
                }
                let v = Self::parse_simple_value(inner);
                let mut out: Vec<Value> = Vec::new();
                out.push(v);
                proof {
                    assert(out@.len() == 1);
                    assert(out@[0] == v);
                    assert(first_idx(inner@, |ch: char| ch == ',') == -1);
                    assert(spec_array_items_match(inner@, out@));
                }
                out
            },
            Some(c) => {
                proof {
                    lemma_first_idx_from_chars(inner@, |ch: char| ch == ',', c as int);
                }
                let piece = inner.substring_char(0, c);
                let v = Self::parse_simple_value(piece);
                let rest = inner.substring_char(c + 1, len);
                let mut out = Self::parse_array_items(rest);
                let ghost tail = out@;
                out.insert(0, v);
                proof {
                    assert(out@[0] == v);
                    assert(out@.drop_first() =~= tail);
                    assert(spec_array_items_match(inner@, out@));
                }
                out
            },
        }
    }
}

/// A value the scalar literal grammar can produce without a container:
/// null, a boolean, a number, or a string.
pub open spec fn is_scalar(v: Value) -> bool {
    v is Null || v is Bool || v is Number || v is String
}

/// The canonical text of a scalar: the keyword for null and booleans, a
/// number's own literal text, and a string re-wrapped in double quotes so
/// that it can never be mistaken for another type.
pub open spec fn spec_scalar_string(v: Value) -> Seq<char> {
    match v {
        Value::Null => "null"@,
        Value::Bool(b) => if b {
            "true"@
        } else {
            "false"@
        },
        Value::Number(x) => x@,
        Value::String(s) => seq!['"'] + s@ + seq!['"'],
        _ => Seq::empty(),
    }
}

/// Renders a scalar in canonical form.
pub fn scalar_to_string(v: &Value) -> (r: String)
    requires
        is_scalar(*v),
    ensures
        r@ == spec_scalar_string(*v),
{
    match v {
        Value::Null => String::from_str("null"),
        Value::Bool(b) => if *b {
            String::from_str("true")
        } else {
            String::from_str("false")
        },
        Value::Number(x) => x.clone(),
        Value::String(s) => {
            let mut out = String::from_str("\"");
            out.append(s.as_str());
            out.append("\"");
            proof {
                reveal_strlit("\"");
                assert(out@ =~= spec_scalar_string(*v));
            }
            out
        },
        _ => String::new(),
    }
}

proof fn lemma_trim_no_op(s: Seq<char>)
    requires
        s.len() > 0,
        !is_space(s[0]),
        !is_space(s.last()),
    ensures
        spec_trim(s) == s,
{
    assert(lead_ws(s) == 0);
    assert(trail_ws(s) == 0);
    assert(s.subrange(0, s.len() as int) =~= s);
}

proof fn lemma_keywords_not_numeric()
    ensures
        !spec_is_numeric("null"@),
        !spec_is_numeric("true"@),
        !spec_is_numeric("false"@),
{
    reveal_strlit("null");
    reveal_strlit("true");
    reveal_strlit("false");
    reveal_strlit("inf");
    reveal_strlit("infinity");
    reveal_strlit("nan");
    assert(spec_strip_sign("null"@) == "null"@);
    assert(spec_strip_sign("true"@) == "true"@);
    assert(spec_strip_sign("false"@) == "false"@);
    // none matches inf, infinity or nan: the lengths differ
    assert(!is_special_body("null"@) && !is_special_body("true"@) && !is_special_body("false"@));
    // "null" has no exponent marker and no dot, and 'n' is no digit
    lemma_first_idx_from_chars("null"@, |c: char| c == 'e' || c == 'E', 4);
    lemma_first_idx_from_chars("null"@, |c: char| c == '.', 4);
    assert(!is_digit("null"@[0]));
    assert(!is_number_body("null"@));
    // "true" has its first 'e' at index 3; "tru" is no mantissa
    lemma_first_idx_from_chars("true"@, |c: char| c == 'e' || c == 'E', 3);
    let tru = "true"@.subrange(0, 3);
    lemma_first_idx_from_chars(tru, |c: char| c == '.', 3);
    assert(!is_digit(tru[0]));
    assert(!is_number_body("true"@));
    // "false" has its first 'e' at index 4; "fals" is no mantissa
    lemma_first_idx_from_chars("false"@, |c: char| c == 'e' || c == 'E', 4);
    let fals = "false"@.subrange(0, 4);
    lemma_first_idx_from_chars(fals, |c: char| c == '.', 4);
    assert(!is_digit(fals[0]));
    assert(!is_number_body("false"@));
}

/// Round trip for scalars: rendering any scalar value in canonical form
/// and reading it back through the scalar literal grammar preserves the
/// value exactly — in particular its type. Re-adding quotes is what makes
/// strings such as `"null"` or `"42"` unambiguous.
pub proof fn lemma_scalar_round_trip(v: Value)
    requires
        is_scalar(v),
        v matches Value::Number(x) ==> spec_is_numeric(x@),
    ensures
        spec_simple_matches(spec_scalar_string(v), v),
{
    reveal_strlit("null");
    reveal_strlit("true");
    reveal_strlit("false");
    let s = spec_scalar_string(v);
    lemma_keywords_not_numeric();
    match v {
        Value::Null => {
            lemma_trim_no_op(s);
        },
        Value::Bool(b) => {
            lemma_trim_no_op(s);
            if b {
                assert("true"@[0] != "null"@[0]);
            } else {
                assert("false"@.len() != "null"@.len());
                assert("false"@[0] != "true"@[0]);
            }
        },
        Value::Number(x) => {
            lemma_numeric_first_char(x@);
            assert(!is_space(x@[0]) && x@[0] != '"' && x@[0] != '\'');
            assert(!is_space(x@.last())) by {
                if x@.len() == 1 {
                } else {
                    lemma_numeric_last_char(x@);
                }
            }
            lemma_trim_no_op(s);
            assert(x@ != "null"@ && x@ != "true"@ && x@ != "false"@);
            assert(!is_quote_wrapped(x@));
        },
        Value::String(str0) => {
            assert(s.len() >= 2);
            assert(s[0] == '"' && s.last() == '"');
            lemma_trim_no_op(s);
            assert(s != "null"@) by {
                assert(s[0] != "null"@[0]);
            }
            assert(s != "true"@) by {
                assert(s[0] != "true"@[0]);
            }
            assert(s != "false"@) by {
                assert(s[0] != "false"@[0]);
            }
            assert(is_quote_wrapped(s));
            assert(s.subrange(1, s.len() - 1) =~= str0@);
        },
        _ => {},
    }
}

/// Splits `s` from position `pos` into lines, as `str::lines` does.
fn split_lines_from(s: &str, pos: usize) -> (r: Vec<String>)
    requires
        pos <= s@.len(),
    ensures
        views_of(r@) == spec_lines(s@.subrange(pos as int, s@.len() as int)),
    decreases s@.len() - pos,
{
    let len = s.unicode_len();
    if pos == len {
        let r: Vec<String> = Vec::new();
        proof {
            assert(views_of(r@) =~= spec_lines(s@.subrange(pos as int, len as int)));
        }
        return r;
    }
    let rest = s.substring_char(pos, len);
    let rlen = len - pos;
    match find_char(rest, '\n') {
        None => {
            proof {
                lemma_first_idx_from_chars(rest@, |c: char| c == '\n', rlen as int);
            }
            let mut r: Vec<String> = Vec::new();
            r.push(rest.to_owned());
            proof {
                assert(views_of(r@) =~= spec_lines(s@.subrange(pos as int, len as int)));
            }
            r
        },
        Some(k) => {
            proof {
                lemma_first_idx_from_chars(rest@, |c: char| c == '\n', k as int);
            }
            let line = if k > 0 && rest.get_char(k - 1) == '\r' {
                let l = rest.substring_char(0, k - 1);
                proof {
                    assert(rest@.subrange(0, k as int).drop_last() =~= rest@.subrange(
                        0,
                        k as int - 1,
                    ));
                    assert(l@ == strip_cr(rest@.subrange(0, k as int)));
                }
                l
            } else {
                let l = rest.substring_char(0, k);
                proof {
                    assert(l@ == strip_cr(rest@.subrange(0, k as int)));
                }
                l
            };
            let mut out = split_lines_from(s, pos + k + 1);
            out.insert(0, line.to_owned());
            proof {
                assert(rest@.subrange(k as int + 1, rlen as int) =~= s@.subrange(
                    pos + k + 1,
                    len as int,
                ));
                assert(views_of(out@) =~= spec_lines(s@.subrange(pos as int, len as int)));
            }
            out
        },
    }
}

/// Scans `key: value` lines and table sections at exactly `indent`,
/// accumulating them into `obj`, until the input ends or a line dedents
/// below `indent`. Blank and comment lines are consumed; lines more
/// indented than expected are consumed and skipped.
#[verifier::rlimit(100)]
fn parse_value_at(lines: &Vec<String>, cur: usize, indent: usize, obj: &mut Entries) -> (r: (
    Result<(), TqError>,
    usize,
))
    requires
        cur <= lines@.len(),
        entries_consistent(old(obj).items@),
        entries_wf(old(obj).items@),
    ensures
        cur <= r.1 <= lines@.len(),
        r.0 is Ok ==> entries_consistent(final(obj).items@),
        r.0 is Ok ==> entries_wf(final(obj).items@),
        // an Ok scan stops only at the end of input or on a dedent
        r.0 is Ok ==> (r.1 == lines@.len() || spec_indent(lines@[r.1 as int]@) < indent),
        // a scan that consumed nothing changed nothing
        r.1 == cur ==> *final(obj) == *old(obj),
        cur == lines@.len() ==> r.0 is Ok,
        r.0 matches Err(e) ==> parse_err_shape(e, views_of(lines@)),
        pv_rel(
            views_of(lines@),
            cur as int,
            indent as int,
            old(obj).items@,
            final(obj).items@,
            r.0,
            r.1 as int,
        ),
    decreases lines@.len() - cur,
{
    let n = lines.len();
    if cur == n {
        return (Ok(()), cur);
    }
    let line = &lines[cur];
    proof {
        assert(views_of(lines@)[cur as int] == line@);
    }
    let li = indent_of(line.as_str());
    if li < indent {
        return (Ok(()), cur);
    }
    if li > indent {
        // defensive skip: consuming the line keeps the scan moving
        return parse_value_at(lines, cur + 1, indent, obj);
    }
    let trimmed = trim(line.as_str());
    let tlen = trimmed.unicode_len();
    if tlen == 0 || trimmed.get_char(0) == '#' {
        return parse_value_at(lines, cur + 1, indent, obj);
    }
    match ToonParser::parse_table_header(trimmed) {
        Some((name, declared)) => {
            let key = name.clone();
            let res = parse_table_at(lines, cur + 1, name, declared, indent);
            match res.0 {
                Ok(table) => {
                    obj.insert(key, Value::Table(table));
                    proof {
                        assert(obj.items@ =~= ins(old(obj).items@, (key, Value::Table(table))));
                    }
                    let r2 = parse_value_at(lines, res.1, indent, obj);
                    proof {
                        let linesv = views_of(lines@);
                        let t = spec_trim(linesv[cur as int]);
                        assert(t == trimmed@);
                        assert(res.0 == Ok::<Table, TqError>(table));
                        assert(table_ok_step(
                            linesv,
                            cur as int,
                            indent as int,
                            t,
                            res.0,
                            res.1 as int,
                            (key, Value::Table(table)),
                        ));
                        assert(pv_rel(
                            linesv,
                            res.1 as int,
                            indent as int,
                            ins(old(obj).items@, (key, Value::Table(table))),
                            obj.items@,
                            r2.0,
                            r2.1 as int,
                        ));
                        assert(pv_rel(
                            linesv,
                            cur as int,
                            indent as int,
                            old(obj).items@,
                            obj.items@,
                            r2.0,
                            r2.1 as int,
                        ));
                    }
                    r2
                },
                Err(e) => {
                    proof {
                        let linesv = views_of(lines@);
                        let t = spec_trim(linesv[cur as int]);
                        assert(t == trimmed@);
                        assert(res.0 == Err::<Table, TqError>(e));
                        assert(table_err_step(
                            linesv,
                            cur as int,
                            indent as int,
                            t,
                            res.0,
                            res.1 as int,
                        ));
                    }
                    (Err(e), res.1)
                },
            }
        },
        None => {
            match ToonParser::parse_key_value(trimmed) {
                Some((key, value)) => {
                    // only an EMPTY value portion marks a nested object; an
                    // explicit `null` stays null
                    let rhs_empty = match find_char(trimmed, ':') {
                        Some(c) => {
                            proof {
                                lemma_first_idx_from_chars(
                                    trimmed@,
                                    |c0: char| c0 == ':',
                                    c as int,
                                );
                            }
                            let rhs = trimmed.substring_char(c + 1, tlen);
                            trim(rhs).unicode_len() == 0
                        },
                        None => {
                            proof {
                                lemma_first_idx_from_chars(
                                    trimmed@,
                                    |c0: char| c0 == ':',
                                    tlen as int,
                                );
                            }
                            false
                        },
                    };
                    proof {
                        assert(rhs_empty == kv_rhs_empty(trimmed@));
                        assert(kv_line_binds(trimmed@, (key, value)));
                    }
                    if rhs_empty && cur + 1 < n {
                        let next_indent = indent_of(lines[cur + 1].as_str());
                        proof {
                            assert(views_of(lines@)[cur + 1 as int] == lines@[cur + 1 as int]@);
                        }
                        if next_indent > indent {
                            let mut nested = Entries::new();
                            let res = parse_value_at(
                                lines,
                                cur + 1,
                                indent.saturating_add(2),
                                &mut nested,
                            );
                            let ghost nestedsnap = nested.items@;
                            proof {
                                assert(child_indent(indent as int) == indent.saturating_add(
                                    2,
                                ) as int);
                            }
                            match res.0 {
                                Ok(()) => {
                                    proof {
                                        assert(tables_consistent(Value::Object(nested)));
                                        assert(value_wf(Value::Object(nested)));
                                    }
                                    obj.insert(key, Value::Object(nested));
                                    proof {
                                        assert(obj.items@ =~= ins(
                                            old(obj).items@,
                                            (key, Value::Object(nested)),
                                        ));
                                    }
                                    let r2 = parse_value_at(lines, res.1, indent, obj);
                                    proof {
                                        let linesv = views_of(lines@);
                                        let t = spec_trim(linesv[cur as int]);
                                        assert(t == trimmed@);
                                        assert(kv_rhs_empty(t));
                                        assert(nested_binding(
                                            t,
                                            nestedsnap,
                                            res.0,
                                            res.1 as int,
                                            (key, Value::Object(nested)),
                                        ));
                                        assert(res.0 is Ok);
                                        assert(pv_rel(
                                            linesv,
                                            cur as int + 1,
                                            child_indent(indent as int),
                                            Seq::<(String, Value)>::empty(),
                                            nestedsnap,
                                            res.0,
                                            res.1 as int,
                                        ));
                                        assert(pv_rel(
                                            linesv,
                                            res.1 as int,
                                            indent as int,
                                            ins(old(obj).items@, (key, Value::Object(nested))),
                                            obj.items@,
                                            r2.0,
                                            r2.1 as int,
                                        ));
                                        assert(pv_rel(
                                            linesv,
                                            cur as int,
                                            indent as int,
                                            old(obj).items@,
                                            obj.items@,
                                            r2.0,
                                            r2.1 as int,
                                        ));
                                    }
                                    r2
                                },
                                Err(e) => {
                                    proof {
                                        let linesv = views_of(lines@);
                                        let t = spec_trim(linesv[cur as int]);
                                        assert(t == trimmed@);
                                        assert(kv_rhs_empty(t));
                                        assert(res.0 == Err::<(), TqError>(e));
                                        assert(nested_binding(
                                            t,
                                            nestedsnap,
                                            res.0,
                                            res.1 as int,
                                            (key, Value::Object(nested)),
                                        ));
                                        assert(pv_rel(
                                            linesv,
                                            cur as int + 1,
                                            child_indent(indent as int),
                                            Seq::<(String, Value)>::empty(),
                                            nestedsnap,
                                            res.0,
                                            res.1 as int,
                                        ));
                                    }
                                    (Err(e), res.1)
                                },
                            }
                        } else {
                            obj.insert(key, value);
                            proof {
                                assert(obj.items@ =~= ins(old(obj).items@, (key, value)));
                            }
                            let r2 = parse_value_at(lines, cur + 1, indent, obj);
                            proof {
                                assert(pv_rel(
                                    views_of(lines@),
                                    cur as int,
                                    indent as int,
                                    old(obj).items@,
                                    obj.items@,
                                    r2.0,
                                    r2.1 as int,
                                ));
                            }
                            r2
                        }
                    } else {
                        obj.insert(key, value);
                        proof {
                            assert(obj.items@ =~= ins(old(obj).items@, (key, value)));
                        }
                        let r2 = parse_value_at(lines, cur + 1, indent, obj);
                        proof {
                            assert(pv_rel(
                                views_of(lines@),
                                cur as int,
                                indent as int,
                                old(obj).items@,
                                obj.items@,
                                r2.0,
                                r2.1 as int,
                            ));
                        }
                        r2
                    }
                },
                None => {
                    let mut msg = String::from_str("Invalid syntax: ");
                    msg.append(trimmed);
                    let e = TqError::Parse { line: cur + 1, message: msg };
                    proof {
                        assert(views_of(lines@)[cur as int] == line@);
                        assert(e matches TqError::Parse { line: l, message } && 1 <= l
                            <= views_of(lines@).len() && message@ == "Invalid syntax: "@
                            + spec_trim(views_of(lines@)[l - 1]));
                    }
                    (Err(e), cur)
                },
            }
        },
    }
}

/// Scans the rows of a table declared to have `declared` rows, at
/// `parent_indent + 2`, then checks the declared count against what the
/// scan collected.
fn parse_table_at(lines: &Vec<String>, cur: usize, name: String, declared: usize, parent_indent: usize) -> (r: (
    Result<Table, TqError>,
    usize,
))
    requires
        cur <= lines@.len(),
    ensures
        cur <= r.1 <= lines@.len(),
        r.0 matches Ok(t) ==> {
            &&& t.name@ == name@
            &&& t.declared_rows == declared
            &&& t.rows@.len() == declared
            &&& tables_consistent(Value::Table(t))
            &&& value_wf(Value::Table(t))
        },
        r.0 matches Err(e) ==> (e matches TqError::TableRowMismatch {
            name: n2,
            declared: d2,
            actual,
        } && n2@ == name@ && d2 == declared && actual != declared),
        pt_rel(
            views_of(lines@),
            cur as int,
            name@,
            declared as nat,
            parent_indent as int,
            r.0,
            r.1 as int,
        ),
    decreases lines@.len() - cur,
{
    let expected = parent_indent.saturating_add(2);
    proof {
        assert(child_indent(parent_indent as int) == expected as int);
    }
    let mut rows: Vec<Entries> = Vec::new();
    let end = parse_table_rows(lines, cur, expected, declared, &mut rows);
    let ghost rowsnap = rows@;
    let actual = rows.len();
    if actual != declared {
        proof {
            assert(prows_rel(
                views_of(lines@),
                cur as int,
                child_indent(parent_indent as int),
                declared as nat,
                Seq::<Entries>::empty(),
                rowsnap,
                end as int,
            ));
        }
        (Err(TqError::TableRowMismatch { name, declared, actual }), end)
    } else {
        let t = Table { name, declared_rows: declared, rows };
        proof {
            assert(tables_consistent(Value::Table(t)));
            assert forall|i: int, j: int|
                0 <= i < t.rows@.len() && 0 <= j < t.rows@[i].items@.len() implies value_wf(
                t.rows@[i].items@[j].1,
            ) by {
                assert(entries_wf(t.rows@[i].items@));
            }
            assert(value_wf(Value::Table(t)));
            assert(t.rows@ == rowsnap);
            assert(prows_rel(
                views_of(lines@),
                cur as int,
                child_indent(parent_indent as int),
                declared as nat,
                Seq::<Entries>::empty(),
                rowsnap,
                end as int,
            ));
        }
        (Ok(t), end)
    }
}

/// Collects table rows at exactly `expected` indentation until the input
/// ends, a dedent is seen, or `declared` rows have been collected.
fn parse_table_rows(lines: &Vec<String>, cur: usize, expected: usize, declared: usize, rows: &mut Vec<Entries>) -> (end: usize)
    requires
        cur <= lines@.len(),
        forall|i: int| 0 <= i < old(rows)@.len() ==> entries_consistent(
            #[trigger] old(rows)@[i].items@,
        ),
        forall|i: int| 0 <= i < old(rows)@.len() ==> entries_wf(#[trigger] old(rows)@[i].items@),
    ensures
        cur <= end <= lines@.len(),
        forall|i: int| 0 <= i < final(rows)@.len() ==> entries_consistent(
            #[trigger] final(rows)@[i].items@,
        ),
        forall|i: int| 0 <= i < final(rows)@.len() ==> entries_wf(
            #[trigger] final(rows)@[i].items@,
        ),
        // the row scan stops only at the end of input, with the declared
        // count collected, or on a dedent below the expected indent
        end == lines@.len() || final(rows)@.len() >= declared || spec_indent(
            lines@[end as int]@,
        ) < expected,
        prows_rel(
            views_of(lines@),
            cur as int,
            expected as int,
            declared as nat,
            old(rows)@,
            final(rows)@,
            end as int,
        ),
    decreases lines@.len() - cur,
{
    let n = lines.len();
    if cur == n || rows.len() >= declared {
        return cur;
    }
    let line = &lines[cur];
    proof {
        assert(views_of(lines@)[cur as int] == line@);
    }
    let li = indent_of(line.as_str());
    if li < expected {
        return cur;
    }
    let trimmed = trim(line.as_str());
    let tlen = trimmed.unicode_len();
    if tlen == 0 || trimmed.get_char(0) == '#' {
        return parse_table_rows(lines, cur + 1, expected, declared, rows);
    }
    if tlen >= 2 && trimmed.get_char(0) == '-' && trimmed.get_char(1) == ' ' {
        let after_dash = trimmed.substring_char(2, tlen);
        let mut row = Entries::new();
        if after_dash.unicode_len() > 0 {
            match ToonParser::parse_key_value(after_dash) {
                Some((key, value)) => {
                    proof {
                        assert(kv_line_binds(after_dash@, (key, value)));
                    }
                    row.insert(key, value);
                    proof {
                        assert(row.items@ =~= Seq::<(String, Value)>::empty().push((key, value)));
                    }
                },
                None => {},
            }
        }
        let ghost row0 = row.items@;
        proof {
            assert(row_first_field(trimmed@, row0));
        }
        let ncur = parse_table_row_at(lines, cur + 1, expected.saturating_add(2), &mut row);
        let ghost rowsnap = row;
        proof {
            assert(child_indent(expected as int) == expected.saturating_add(2) as int);
            assert(prow_rel(
                views_of(lines@),
                cur + 1 as int,
                child_indent(expected as int),
                row0,
                rowsnap.items@,
                ncur as int,
            ));
        }
        rows.push(row);
        let r = parse_table_rows(lines, ncur, expected, declared, rows);
        proof {
            assert(prows_rel(
                views_of(lines@),
                cur as int,
                expected as int,
                declared as nat,
                old(rows)@,
                rows@,
                r as int,
            ));
        }
        r
    } else {
        parse_table_rows(lines, cur + 1, expected, declared, rows)
    }
}

/// Collects the `key: value` fields of one table row, strictly at `indent`:
/// stops on a dedent, a new `- ` row marker, or the first line that is not
/// a key/value pair; more-indented lines are consumed and skipped.
fn parse_table_row_at(lines: &Vec<String>, cur: usize, indent: usize, row: &mut Entries) -> (end: usize)
    requires
        cur <= lines@.len(),
        entries_consistent(old(row).items@),
        entries_wf(old(row).items@),
    ensures
        cur <= end <= lines@.len(),
        entries_consistent(final(row).items@),
        entries_wf(final(row).items@),
        // the field scan stops only at the end of input, on a dedent, on a
        // new row marker, or on a line at this indent that is no key/value
        end == lines@.len() || spec_indent(lines@[end as int]@) < indent || ({
            let t = spec_trim(lines@[end as int]@);
            t.len() >= 2 && t[0] == '-' && t[1] == ' '
        }) || (spec_indent(lines@[end as int]@) == indent && colon_idx(
            spec_trim(lines@[end as int]@),
        ) == -1),
        prow_rel(
            views_of(lines@),
            cur as int,
            indent as int,
            old(row).items@,
            final(row).items@,
            end as int,
        ),
    decreases lines@.len() - cur,
{
    let n = lines.len();
    if cur == n {
        return cur;
    }
    let line = &lines[cur];
    proof {
        assert(views_of(lines@)[cur as int] == line@);
    }
    let li = indent_of(line.as_str());
    if li < indent {
        return cur;
    }
    let trimmed = trim(line.as_str());
    let tlen = trimmed.unicode_len();
    if tlen == 0 || trimmed.get_char(0) == '#' {
        return parse_table_row_at(lines, cur + 1, indent, row);
    }
    if tlen >= 2 && trimmed.get_char(0) == '-' && trimmed.get_char(1) == ' ' {
        return cur;
    }
    if li == indent {
        match ToonParser::parse_key_value(trimmed) {
            Some((key, value)) => {
                proof {
                    assert(kv_line_binds(trimmed@, (key, value)));
                }
                row.insert(key, value);
                proof {
                    assert(row.items@ =~= ins(old(row).items@, (key, value)));
                }
                parse_table_row_at(lines, cur + 1, indent, row)
            },
            None => cur,
        }
    } else {
        parse_table_row_at(lines, cur + 1, indent, row)
    }
}

} // verus!
