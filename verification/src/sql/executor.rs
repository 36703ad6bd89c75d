//! The parts of statement execution that shape text and keys: table output, column
//! definitions, qualified names, and the secondary-index entries.
//!
//! A secondary index entry is stored under `__secidx__:<table>:<column>:<value>` and holds the
//! primary keys of the rows with that value, separated by the unit separator U+001F.
use crate::network::pgwire::decimal;
use crate::sql::catalog::{CatalogError, CatalogManager, DEFAULT_SCHEMA};
use crate::sql::types::{data_type_from_chars, data_type_named, ColumnDef, DataType, TableSchema};
use crate::text::{chars_eq_ignore_case, strictly_sorted, strings_view, vstrings, 
    chars_eq, chars_of, find, find_exec, lemma_find_from_bounds, split_char, split_char_exec, string_of,
    subseq, tokens, tokens_exec, trim, trim_chars, upper, to_upper, to_unicode_upper, unicode_upper, find_from, occurs_at,
};
use crate::network::pgwire::{string_from_utf8_lossy, utf8_lossy};
use crate::sql::rows::{decode_values, decoded_row, encode_values_mvcc, encoded_row, string_from_utf8, RowError};
use crate::sql::values::{check_value, is_null_text, parses_as};
use crate::sql::volcano::{
    collect_rows, join_rows, limit_window, row_view, AggregateFunc, FilterExec, HashJoinExec, JoinType, LimitOffsetExec, RowView, SeqScanExec,
};
use crate::sql::write_buffer::{opt_view, WriteBuffer, WriteView};
use crate::storage::ordered::{bytes_less, bytes_lt, lemma_bytes_lt_asymmetric, lemma_bytes_lt_irreflexive, lemma_bytes_lt_total, lemma_bytes_lt_transitive};
use crate::storage::tree::{inline_put_fits, pages_of, pairs_view, scan_result, PairView};
use crate::storage::{Database, DbError};
use vstd::prelude::*;
use vstd::utf8::{decode_utf8, encode_utf8, valid_utf8};

verus! {

/// The parts joined with `sep` between them.
pub open spec fn join(parts: Seq<Seq<char>>, sep: Seq<char>) -> Seq<char>
    decreases parts.len(),
{
    if parts.len() == 0 {
        Seq::empty()
    } else if parts.len() == 1 {
        parts[0]
    } else {
        join(parts.drop_last(), sep) + sep + parts.last()
    }
}

fn push_str(out: &mut Vec<char>, s: &str)
    ensures
        final(out)@ == old(out)@ + s@,
{
    let cs = chars_of(s);
    push_all(out, cs.as_slice());
}

fn push_all(out: &mut Vec<char>, s: &[char])
    ensures
        final(out)@ == old(out)@ + s@,
{
    let mut i: usize = 0;
    while i < s.len()
        invariant
            i <= s@.len(),
            out@ == old(out)@ + s@.take(i as int),
        decreases s@.len() - i,
    {
        out.push(s[i]);
        i = i + 1;
        assert(out@ =~= old(out)@ + s@.take(i as int));
    }
    assert(s@.take(i as int) =~= s@);
}

/// Appends the parts joined with `sep`.
fn push_joined(out: &mut Vec<char>, parts: &[String], sep: &str)
    ensures
        final(out)@ == old(out)@ + join(strings_view(parts@), sep@),
{
    let ghost ps = strings_view(parts@);
    let mut i: usize = 0;
    while i < parts.len()
        invariant
            ps == strings_view(parts@),
            i <= ps.len(),
            out@ == old(out)@ + join(ps.take(i as int), sep@),
        decreases ps.len() - i,
    {
        if i > 0 {
            push_str(out, sep);
        }
        let cs = chars_of(parts[i].as_str());
        push_all(out, cs.as_slice());
        proof {
            let t = ps.take(i + 1);
            assert(t.drop_last() =~= ps.take(i as int));
            assert(t.last() == ps[i as int]);
            if i == 0 {
                assert(ps.take(0) =~= Seq::<Seq<char>>::empty());
                assert(t.len() == 1);
            }
        }
        i = i + 1;
    }
    assert(ps.take(i as int) =~= ps);
}

/// The separator line of table output.
pub open spec fn rule_line() -> Seq<char> {
    "+-----------------+\n"@
}

/// The text of a result table: a header row between rules, one line per row, a closing rule
/// and the row count.
pub open spec fn table_output(headers: Seq<Seq<char>>, rows: Seq<Seq<Seq<char>>>) -> Seq<char> {
    rule_line() + "| "@ + join(headers, " | "@) + " |\n"@ + rule_line() + rows_text(rows) + rule_line()
        + decimal(rows.len()) + " row(s) in set."@
}

/// One line per row: `| v1 | v2 |`.
pub open spec fn rows_text(rows: Seq<Seq<Seq<char>>>) -> Seq<char>
    decreases rows.len(),
{
    if rows.len() == 0 {
        Seq::empty()
    } else {
        rows_text(rows.drop_last()) + "| "@ + join(rows.last(), " | "@) + " |\n"@
    }
}

pub open spec fn rows_view(rows: Seq<Vec<String>>) -> Seq<Seq<Seq<char>>> {
    rows.map_values(|r: Vec<String>| strings_view(r@))
}

/// Formats a result table.
pub fn format_table_output(headers: &[String], rows: &[Vec<String>]) -> (r: String)
    ensures
        r@ == table_output(strings_view(headers@), rows_view(rows@)),
{
    let mut out: Vec<char> = Vec::new();
    push_str(&mut out, "+-----------------+\n");
    push_str(&mut out, "| ");
    push_joined(&mut out, headers, " | ");
    push_str(&mut out, " |\n");
    push_str(&mut out, "+-----------------+\n");
    let ghost head = out@;
    let ghost rv = rows_view(rows@);
    let mut i: usize = 0;
    while i < rows.len()
        invariant
            rv == rows_view(rows@),
            i <= rows@.len(),
            out@ == head + rows_text(rv.take(i as int)),
        decreases rows@.len() - i,
    {
        push_str(&mut out, "| ");
        push_joined(&mut out, rows[i].as_slice(), " | ");
        push_str(&mut out, " |\n");
        proof {
            assert(rv.take(i + 1).drop_last() =~= rv.take(i as int));
            assert(rv.take(i + 1).last() == strings_view(rows@[i as int]@));
        }
        i = i + 1;
    }
    assert(rv.take(i as int) =~= rv);
    push_str(&mut out, "+-----------------+\n");
    let count = crate::network::pgwire::decimal_exec(rows.len());
    push_all(&mut out, count.as_slice());
    push_str(&mut out, " row(s) in set.");
    string_of(out.as_slice())
}

/// A possibly schema-qualified table name, split at the first '.' and trimmed; an
/// unqualified name is in the default schema.
pub open spec fn qualified_name(raw: Seq<char>) -> (Seq<char>, Seq<char>) {
    match find(raw, "."@) {
        Some(i) => (trim(raw.subrange(0, i)), trim(raw.subrange(i + 1, raw.len() as int))),
        None => ("public"@, trim(raw)),
    }
}

/// Splits `schema.table`; a name without a schema is in the default schema.
pub fn parse_qualified_table_name(raw: &str) -> (r: (String, String))
    ensures
        (r.0@, r.1@) == qualified_name(raw@),
{
    let cs = chars_of(raw);
    let dot = chars_of(".");
    proof {
        reveal_strlit(".");
        lemma_find_from_bounds(raw@, "."@, 0);
    }
    match find_exec(cs.as_slice(), dot.as_slice(), 0) {
        Some(i) => {
            assert(occurs_at(raw@, "."@, i as int));
            assert(i < cs.len());
            let left = subseq(cs.as_slice(), 0, i);
            let right = subseq(cs.as_slice(), i + 1, cs.len());
            (string_of(trim_chars(left.as_slice()).as_slice()), string_of(trim_chars(right.as_slice()).as_slice()))
        },
        None => (DEFAULT_SCHEMA.to_owned(), string_of(trim_chars(cs.as_slice()).as_slice())),
    }
}

/// The column names of a legacy table description `name type, name type, ...`: the first
/// word of each comma-separated part (the trimmed part when it has none).
pub open spec fn col_names(schema_val: Seq<char>) -> Seq<Seq<char>> {
    split_char(schema_val, ',').map_values(
        |c: Seq<char>|
            if tokens(c).len() > 0 {
                tokens(c)[0]
            } else {
                trim(c)
            },
    )
}

/// The column names of a legacy table description.
pub fn extract_col_names(schema_val: &str) -> (r: Vec<String>)
    ensures
        strings_view(r@) == col_names(schema_val@),
{
    let cs = chars_of(schema_val);
    let parts = split_char_exec(cs.as_slice(), ',');
    let ghost pv = parts@.map_values(|p: Vec<char>| p@);
    let mut out: Vec<String> = Vec::new();
    let mut i: usize = 0;
    while i < parts.len()
        invariant
            pv == parts@.map_values(|p: Vec<char>| p@),
            pv == split_char(schema_val@, ','),
            i <= parts@.len(),
            strings_view(out@) == col_names(schema_val@).take(i as int),
        decreases parts@.len() - i,
    {
        let toks = tokens_exec(parts[i].as_slice());
        let name = if toks.len() > 0 {
            string_of(toks[0].as_slice())
        } else {
            string_of(trim_chars(parts[i].as_slice()).as_slice())
        };
        let ghost prev = out@;
        out.push(name);
        proof {
            assert(strings_view(out@) =~= strings_view(prev).push(name@));
            assert(col_names(schema_val@)[i as int] == name@);
            assert(strings_view(out@) =~= col_names(schema_val@).take(i + 1));
        }
        i = i + 1;
    }
    assert(col_names(schema_val@).take(i as int) =~= col_names(schema_val@));
    out
}

/// Whether `c` is trimmed from a column type: ',', '(' or ')'.
pub open spec fn is_type_punct(c: char) -> bool {
    c == ',' || c == '(' || c == ')'
}

/// `s` without leading and trailing type punctuation.
pub open spec fn trim_punct(s: Seq<char>) -> Seq<char>
    decreases s.len(),
{
    if s.len() > 0 && is_type_punct(s[0]) {
        trim_punct(s.drop_first())
    } else if s.len() > 0 && is_type_punct(s.last()) {
        trim_punct(s.drop_last())
    } else {
        s
    }
}

fn trim_punct_exec(s: &[char]) -> (r: Vec<char>)
    ensures
        r@ == trim_punct(s@),
{
    let mut lo: usize = 0;
    let mut hi: usize = s.len();
    assert(s@.subrange(0, s@.len() as int) =~= s@);
    while lo < hi && (s[lo] == ',' || s[lo] == '(' || s[lo] == ')')
        invariant
            lo <= hi <= s@.len(),
            hi == s@.len(),
            trim_punct(s@) == trim_punct(s@.subrange(lo as int, hi as int)),
        decreases hi - lo,
    {
        assert(s@.subrange(lo as int, hi as int).drop_first() =~= s@.subrange(lo + 1, hi as int));
        lo = lo + 1;
    }
    while lo < hi && (s[hi - 1] == ',' || s[hi - 1] == '(' || s[hi - 1] == ')')
        invariant
            lo <= hi <= s@.len(),
            lo == hi || !is_type_punct(s@[lo as int]),
            trim_punct(s@) == trim_punct(s@.subrange(lo as int, hi as int)),
        decreases hi - lo,
    {
        let ghost t = s@.subrange(lo as int, hi as int);
        assert(t.drop_last() =~= s@.subrange(lo as int, hi - 1));
        assert(t[0] == s@[lo as int]);
        hi = hi - 1;
    }
    let r = subseq(s, lo, hi);
    proof {
        let t = s@.subrange(lo as int, hi as int);
        if t.len() > 0 {
            assert(t[0] == s@[lo as int]);
            assert(t.last() == s@[hi - 1]);
        }
    }
    r
}

/// Whether `p` occurs in `s`.
pub open spec fn contains(s: Seq<char>, p: Seq<char>) -> bool {
    find(s, p) is Some
}

/// The column a definition like `id INT PRIMARY KEY` describes: the first word names it
/// ("col" when there is none), the second, stripped of ',', '(' and ')', gives the type
/// (TEXT when it names none), and "PRIMARY KEY" or "NOT NULL" anywhere (ignoring ASCII case)
/// make it not null, the first also a primary key.
pub open spec fn column_def_of(raw: Seq<char>) -> (Seq<char>, DataType, bool, bool) {
    let toks = tokens(raw);
    let name = if toks.len() > 0 {
        toks[0]
    } else {
        "col"@
    };
    let up = unicode_upper(raw);
    let is_pk = contains(up, "PRIMARY KEY"@);
    let not_null = is_pk || contains(up, "NOT NULL"@);
    let dtype = if toks.len() > 1 {
        match data_type_named(unicode_upper(trim_punct(toks[1]))) {
            Some(t) => t,
            None => DataType::Text,
        }
    } else {
        DataType::Text
    };
    (name, dtype, !not_null, is_pk)
}

/// Reads a column definition of a CREATE TABLE statement.
pub fn parse_column_def(raw: &str) -> (c: ColumnDef)
    ensures
        column_def_of(raw@) == (c.name@, c.data_type, c.is_nullable, c.is_primary_key),
        c.is_unique == c.is_primary_key,
        c.default_value is None,
{
    let cs = chars_of(raw);
    let toks = tokens_exec(cs.as_slice());
    let col_name = if toks.len() > 0 {
        string_of(toks[0].as_slice())
    } else {
        "col".to_owned()
    };
    let up = to_unicode_upper(cs.as_slice());
    let pk_kw = chars_of("PRIMARY KEY");
    let nn_kw = chars_of("NOT NULL");
    let mut is_nullable = true;
    let mut is_pk = false;
    if find_exec(up.as_slice(), pk_kw.as_slice(), 0).is_some() {
        is_pk = true;
        is_nullable = false;
    }
    if find_exec(up.as_slice(), nn_kw.as_slice(), 0).is_some() {
        is_nullable = false;
    }
    let mut dtype = DataType::Text;
    if toks.len() > 1 {
        let type_chars = trim_punct_exec(toks[1].as_slice());
        match data_type_from_chars(type_chars.as_slice()) {
            Ok(dt) => {
                dtype = dt;
            },
            Err(_) => {},
        }
    }
    ColumnDef::new(col_name, dtype).with_nullable(is_nullable).with_primary_key(is_pk)
}


/// The separator of primary keys in a secondary-index entry (U+001F).
pub open spec fn pk_sep() -> char {
    '\u{1F}'
}

/// The key of the secondary-index entry of `value` in `column` of `table`.
pub open spec fn sec_idx_key(table: Seq<char>, column: Seq<char>, value: Seq<char>) -> Seq<char> {
    "__secidx__:"@ + table + ":"@ + column + ":"@ + value
}

/// The entry after adding `pk`: `None` when `pk` is listed already.
pub open spec fn pk_list_added(existing: Option<Seq<char>>, pk: Seq<char>) -> Option<Seq<char>> {
    match existing {
        Some(s) => if split_char(s, pk_sep()).contains(pk) {
            None
        } else {
            Some(s + seq![pk_sep()] + pk)
        },
        None => Some(pk),
    }
}

/// The primary keys left after removing `pk`.
pub open spec fn pk_list_removed(existing: Seq<char>, pk: Seq<char>) -> Seq<Seq<char>> {
    split_char(existing, pk_sep()).filter(other_than(pk))
}

/// The test that keeps every primary key but `pk`.
pub open spec fn other_than(pk: Seq<char>) -> spec_fn(Seq<char>) -> bool {
    |p: Seq<char>| p != pk
}

fn sep_str() -> (r: Vec<char>)
    ensures
        r@ == seq![pk_sep()],
{
    let mut v: Vec<char> = Vec::new();
    v.push('\u{1F}');
    v
}

/// A secondary-index entry with `pk` added; `None` when it is listed already.
pub fn pk_list_add(existing: Option<&str>, pk: &str) -> (r: Option<String>)
    ensures
        opt_chars(r) == pk_list_added(opt_str(existing), pk@),
{
    match existing {
        Some(s) => {
            let cs = chars_of(s);
            let pk_cs = chars_of(pk);
            let parts = split_char_exec(cs.as_slice(), '\u{1F}');
            let ghost pv = parts@.map_values(|p: Vec<char>| p@);
            let mut i: usize = 0;
            while i < parts.len()
                invariant
                    pv == parts@.map_values(|p: Vec<char>| p@),
                    pv == split_char(s@, pk_sep()),
                    opt_str(existing) == Some(s@),
                    pk_cs@ == pk@,
                    i <= parts@.len(),
                    forall|j: int| 0 <= j < i ==> pv[j] != pk@,
                decreases parts@.len() - i,
            {
                if chars_eq(parts[i].as_slice(), pk_cs.as_slice()) {
                    assert(pv[i as int] == pk@);
                    assert(pv.contains(pk@));
                    return None;
                }
                i = i + 1;
            }
            let mut out = cs;
            let sep = sep_str();
            push_all(&mut out, sep.as_slice());
            push_all(&mut out, pk_cs.as_slice());
            Some(string_of(out.as_slice()))
        },
        None => Some(string_of(chars_of(pk).as_slice())),
    }
}

pub open spec fn opt_chars(o: Option<String>) -> Option<Seq<char>> {
    match o {
        Some(s) => Some(s@),
        None => None,
    }
}

pub open spec fn opt_str(o: Option<&str>) -> Option<Seq<char>> {
    match o {
        Some(s) => Some(s@),
        None => None,
    }
}

/// A secondary-index entry with `pk` removed; `None` when no key is left.
pub fn pk_list_remove(existing: &str, pk: &str) -> (r: Option<String>)
    ensures
        pk_list_removed(existing@, pk@).len() == 0 ==> r is None,
        pk_list_removed(existing@, pk@).len() > 0 ==> (r matches Some(v) && v@ == join(pk_list_removed(existing@, pk@), seq![pk_sep()])),
{
    let cs = chars_of(existing);
    let pk_cs = chars_of(pk);
    let parts = split_char_exec(cs.as_slice(), '\u{1F}');
    let ghost pv = parts@.map_values(|p: Vec<char>| p@);
    let mut kept: Vec<String> = Vec::new();
    let mut i: usize = 0;
    proof {
        reveal(Seq::filter);
        assert(pv.take(0) =~= Seq::<Seq<char>>::empty());
        assert(strings_view(kept@) =~= Seq::<Seq<char>>::empty());
    }
    while i < parts.len()
        invariant
            pv == parts@.map_values(|p: Vec<char>| p@),
            pv == split_char(existing@, pk_sep()),
            pk_cs@ == pk@,
            i <= parts@.len(),
            strings_view(kept@) == pv.take(i as int).filter(other_than(pk@)),
        decreases parts@.len() - i,
    {
        let ghost prev = strings_view(kept@);
        proof {
            assert(pv.take(i + 1) =~= pv.take(i as int).push(pv[i as int]));
            pv.take(i as int).lemma_filter_push(pv[i as int], other_than(pk@));
        }
        if !chars_eq(parts[i].as_slice(), pk_cs.as_slice()) {
            kept.push(string_of(parts[i].as_slice()));
            proof {
                assert(strings_view(kept@) =~= prev.push(pv[i as int]));
            }
        }
        i = i + 1;
    }
    assert(pv.take(i as int) =~= pv);
    if kept.len() == 0 {
        return None;
    }
    let mut out: Vec<char> = Vec::new();
    let sep = string_of(sep_str().as_slice());
    push_joined(&mut out, kept.as_slice(), sep.as_str());
    Some(string_of(out.as_slice()))
}

fn str_bytes(s: &str) -> (r: Vec<u8>)
    ensures
        r@ == encode_utf8(s@),
{
    crate::codec::copy_bytes(s.as_bytes())
}

fn chars_bytes(s: &[char]) -> (r: Vec<u8>)
    ensures
        r@ == encode_utf8(s@),
{
    let st = string_of(s);
    crate::codec::copy_bytes(st.as_str().as_bytes())
}

fn sec_key_chars(table: &str, column: &str, col_val: &str) -> (r: Vec<char>)
    ensures
        r@ == sec_idx_key(table@, column@, col_val@),
{
    let mut k: Vec<char> = Vec::new();
    push_str(&mut k, "__secidx__:");
    push_str(&mut k, table);
    push_str(&mut k, ":");
    push_str(&mut k, column);
    push_str(&mut k, ":");
    push_str(&mut k, col_val);
    k
}

/// The stored key of a secondary-index entry.
pub open spec fn sec_entry_key(table: Seq<char>, column: Seq<char>, value: Seq<char>) -> Seq<u8> {
    encode_utf8(sec_idx_key(table, column, value))
}

/// The text of a stored entry, if any.
pub open spec fn lossy_text(stored: Option<Seq<u8>>) -> Option<Seq<char>> {
    match stored {
        Some(b) => Some(utf8_lossy(b)),
        None => None,
    }
}

/// The pending writes after a `DELETE` of the rows keyed `pk` in table `t` inside a
/// transaction, when some row matched: the key is pending as a delete.
pub open spec fn deleted_pending(pending: Map<Seq<u8>, Option<Seq<u8>>>, t: Seq<char>, pk: Seq<char>, matched: bool) -> Map<Seq<u8>, Option<Seq<u8>>> {
    if matched {
        pending.insert(encode_utf8(t + ":"@ + pk), None)
    } else {
        pending
    }
}

/// The pending writes after an `UPDATE` inside transaction `tx_id` of the rows keyed `pk` in
/// table `t` that sets the cell at `col` to `value`, when `matched` are the matching rows:
/// the last of them, updated, is pending under the key.
pub open spec fn updated_pending(
    pending: Map<Seq<u8>, Option<Seq<u8>>>,
    t: Seq<char>,
    pk: Seq<char>,
    matched: Seq<RowView>,
    col: int,
    value: Seq<char>,
    tx_id: u64,
) -> Map<Seq<u8>, Option<Seq<u8>>> {
    if matched.len() > 0 {
        pending.insert(encode_utf8(t + ":"@ + pk), Some(encoded_row(matched.last().update(col, value), tx_id, 0)))
    } else {
        pending
    }
}

/// `pending` with a delete pending for each of `keys`, in order.
pub open spec fn deletes_pending(pending: Map<Seq<u8>, Option<Seq<u8>>>, keys: Seq<Seq<u8>>) -> Map<Seq<u8>, Option<Seq<u8>>>
    decreases keys.len(),
{
    if keys.len() == 0 {
        pending
    } else {
        deletes_pending(pending, keys.drop_last()).insert(keys.last(), None)
    }
}

/// Whether `k` is the key of a secondary-index entry of `table`.
pub open spec fn is_index_entry_of(k: Seq<u8>, table: Seq<char>) -> bool {
    exists|c: Seq<char>, v: Seq<char>| k == #[trigger] sec_entry_key(table, c, v)
}

/// `after` agrees with `before` on every key but the secondary-index entries of `table`.
pub open spec fn same_but_index(before: Map<Seq<u8>, Option<Seq<u8>>>, after: Map<Seq<u8>, Option<Seq<u8>>>, table: Seq<char>) -> bool {
    forall|k: Seq<u8>|
        !is_index_entry_of(k, table) ==> (#[trigger] after.dom().contains(k)) == before.dom().contains(k) && (before.dom().contains(k)
            ==> after[k] == before[k])
}

/// Agreeing but on the index entries of a table is transitive.
proof fn lemma_same_but_index_trans(a: Map<Seq<u8>, Option<Seq<u8>>>, b: Map<Seq<u8>, Option<Seq<u8>>>, c: Map<Seq<u8>, Option<Seq<u8>>>, t: Seq<char>)
    requires
        same_but_index(a, b, t),
        same_but_index(b, c, t),
    ensures
        same_but_index(a, c, t),
{
    assert forall|k: Seq<u8>| !is_index_entry_of(k, t) implies (#[trigger] c.dom().contains(k)) == a.dom().contains(k) && (a.dom().contains(k)
        ==> c[k] == a[k]) by {
        assert(c.dom().contains(k) == b.dom().contains(k));
        assert(b.dom().contains(k) == a.dom().contains(k));
    }
}

/// Adds `pk` to the secondary-index entry of `col_val`: read from the database, written to
/// the transaction's buffer inside a transaction and to the database outside one.
pub fn sec_idx_add(db: &mut Database, buffer: &mut WriteBuffer, in_transaction: bool, table: &str, column: &str, col_val: &str, pk: &str) -> (r: Result<(), DbError>)
    requires
        old(db).wf(),
        old(buffer).wf(),
    ensures
        final(db).wf(),
        old(db).log().spec_pending().is_prefix_of(final(db).log().spec_pending()),
        final(db).logging() == old(db).logging(),
        final(buffer).wf(),
        !in_transaction ==> *final(buffer) == *old(buffer),
        same_but_index(old(buffer).view_map(), final(buffer).view_map(), table@),
        in_transaction ==> final(db).log() == old(db).log(),
        in_transaction ==> Database::same_contents(*old(db), *final(db)),
        in_transaction && old(db).tree().pool().coherent() && old(db).tree().sorted_leaf_for(sec_entry_key(table@, column@, col_val@))
            ==> match old(db).tree().lookup(sec_entry_key(table@, column@, col_val@)) {
                None => r is Err,
                Some(stored) => r is Ok && final(buffer).view_map() == match pk_list_added(lossy_text(stored), pk@) {
                    None => old(buffer).view_map(),
                    Some(v) => old(buffer).view_map().insert(sec_entry_key(table@, column@, col_val@), Some(encode_utf8(v))),
                },
            },
        crate::storage::log_full_only_at_limit(r, *final(db)),
{
    let key = sec_key_chars(table, column, col_val);
    let key_bytes = chars_bytes(key.as_slice());
    let existing = match db.get(key_bytes.as_slice()) {
        Ok(e) => e,
        Err(e) => {
            return Err(e);
        },
    };
    let new_val = match existing {
        Some(data) => {
            let s = string_from_utf8_lossy(data.as_slice());
            pk_list_add(Some(s.as_str()), pk)
        },
        None => pk_list_add(None, pk),
    };
    match new_val {
        None => Ok(()),
        Some(v) => {
            let vb = str_bytes(v.as_str());
            if in_transaction {
                buffer.insert(key_bytes, Some(vb));
                Ok(())
            } else {
                db.put(key_bytes.as_slice(), vb.as_slice())
            }
        },
    }
}

/// Removes `pk` from the secondary-index entry of `col_val`; an entry left empty is
/// deleted. Read from the database, written to the transaction's buffer inside a
/// transaction and to the database outside one.
pub fn sec_idx_remove(db: &mut Database, buffer: &mut WriteBuffer, in_transaction: bool, table: &str, column: &str, col_val: &str, pk: &str) -> (r: Result<(), DbError>)
    requires
        old(db).wf(),
        old(buffer).wf(),
    ensures
        final(db).wf(),
        old(db).log().spec_pending().is_prefix_of(final(db).log().spec_pending()),
        final(db).logging() == old(db).logging(),
        final(buffer).wf(),
        !in_transaction ==> *final(buffer) == *old(buffer),
        same_but_index(old(buffer).view_map(), final(buffer).view_map(), table@),
        in_transaction ==> final(db).log() == old(db).log(),
        in_transaction ==> Database::same_contents(*old(db), *final(db)),
        in_transaction && old(db).tree().pool().coherent() && old(db).tree().sorted_leaf_for(sec_entry_key(table@, column@, col_val@))
            ==> match old(db).tree().lookup(sec_entry_key(table@, column@, col_val@)) {
                None => r is Err,
                Some(None) => r is Ok && final(buffer).view_map() == old(buffer).view_map(),
                Some(Some(b)) => r is Ok && final(buffer).view_map() == old(buffer).view_map().insert(
                    sec_entry_key(table@, column@, col_val@),
                    if pk_list_removed(utf8_lossy(b), pk@).len() == 0 {
                        None
                    } else {
                        Some(encode_utf8(join(pk_list_removed(utf8_lossy(b), pk@), seq![pk_sep()])))
                    },
                ),
            },
        crate::storage::log_full_only_at_limit(r, *final(db)),
{
    let key = sec_key_chars(table, column, col_val);
    let key_bytes = chars_bytes(key.as_slice());
    let existing = match db.get(key_bytes.as_slice()) {
        Ok(e) => e,
        Err(e) => {
            return Err(e);
        },
    };
    match existing {
        None => Ok(()),
        Some(data) => {
            let s = string_from_utf8_lossy(data.as_slice());
            match pk_list_remove(s.as_str(), pk) {
                None => {
                    if in_transaction {
                        buffer.insert(key_bytes, None);
                        Ok(())
                    } else {
                        db.delete(key_bytes.as_slice())
                    }
                },
                Some(v) => {
                    let vb = str_bytes(v.as_str());
                    if in_transaction {
                        buffer.insert(key_bytes, Some(vb));
                        Ok(())
                    } else {
                        db.put(key_bytes.as_slice(), vb.as_slice())
                    }
                },
            }
        },
    }
}

/// The pending writes after adding (`add`) or removing `pk` at the index entry `ek`, whose
/// stored value is `stored`, inside a transaction: the entry's new list is pending, a list
/// left empty as a delete; nothing changes when the list stays as it was stored.
pub open spec fn entry_updated(
    m: Map<Seq<u8>, Option<Seq<u8>>>,
    ek: Seq<u8>,
    stored: Option<Seq<u8>>,
    pk: Seq<char>,
    add: bool,
) -> Map<Seq<u8>, Option<Seq<u8>>> {
    if add {
        match pk_list_added(lossy_text(stored), pk) {
            None => m,
            Some(v) => m.insert(ek, Some(encode_utf8(v))),
        }
    } else {
        match stored {
            None => m,
            Some(b) => m.insert(
                ek,
                if pk_list_removed(utf8_lossy(b), pk).len() == 0 {
                    None
                } else {
                    Some(encode_utf8(join(pk_list_removed(utf8_lossy(b), pk), seq![pk_sep()])))
                },
            ),
        }
    }
}

/// The pending writes after adding (`add`) or removing `pk` at the entries of the indexes
/// `defs` of table `t` for a row with values `values` under column names `names`, inside a
/// transaction, as `db` gives the stored entries: each index whose columns all have a value
/// in the row updates its entry of the joined values under the joined column names. `None`
/// when an entry cannot be read cleanly.
pub open spec fn index_entries_updated(
    m: Map<Seq<u8>, Option<Seq<u8>>>,
    db: Database,
    t: Seq<char>,
    defs: Seq<Seq<char>>,
    names: Seq<Seq<char>>,
    values: Seq<Seq<char>>,
    pk: Seq<char>,
    add: bool,
) -> Option<Map<Seq<u8>, Option<Seq<u8>>>>
    decreases defs.len(),
{
    if defs.len() == 0 {
        Some(m)
    } else {
        match index_entries_updated(m, db, t, defs.drop_last(), names, values, pk, add) {
            None => None,
            Some(m1) => {
                let cols = split_char(defs.last(), ',');
                let vals = column_values_of(cols, names, values);
                if vals.len() == cols.len() {
                    let ek = sec_entry_key(t, join(cols, "+"@), join(vals, "+"@));
                    match stored_value(db, ek) {
                        Some(st) => Some(entry_updated(m1, ek, st, pk, add)),
                        None => None,
                    }
                } else {
                    Some(m1)
                }
            },
        }
    }
}

/// When the entries of all the indexes can be read cleanly, so can those of the first `i`.
proof fn lemma_entries_prefix(
    m: Map<Seq<u8>, Option<Seq<u8>>>,
    db: Database,
    t: Seq<char>,
    defs: Seq<Seq<char>>,
    names: Seq<Seq<char>>,
    values: Seq<Seq<char>>,
    pk: Seq<char>,
    add: bool,
    i: int,
)
    requires
        0 <= i <= defs.len(),
        index_entries_updated(m, db, t, defs, names, values, pk, add) is Some,
    ensures
        index_entries_updated(m, db, t, defs.take(i), names, values, pk, add) is Some,
    decreases defs.len() - i,
{
    if i == defs.len() {
        assert(defs.take(i) =~= defs);
    } else {
        lemma_entries_prefix(m, db, t, defs, names, values, pk, add, i + 1);
        assert(defs.take(i + 1).drop_last() =~= defs.take(i));
    }
}

/// The cells of a row at `positions`, in order, skipping a position past its end.
pub open spec fn picked_cells(row: Seq<Seq<char>>, positions: Seq<usize>) -> Seq<Seq<char>>
    decreases positions.len(),
{
    if positions.len() == 0 {
        Seq::empty()
    } else {
        let prev = picked_cells(row, positions.drop_last());
        if (positions.last() as int) < row.len() {
            prev.push(row[positions.last() as int])
        } else {
            prev
        }
    }
}

/// The pending writes after adding the stored rows `records` (keys under a prefix of length
/// `plen`) to the index entries under column key `ck` of table `t`, inside a transaction: a
/// row with a cell at each of `positions` (`n` of them) and a key at least the prefix long
/// adds its key after the prefix to the entry of its joined cells; the first row that does not
/// decode stops it. `None` when an entry cannot be read cleanly.
pub open spec fn rows_indexed(
    m: Map<Seq<u8>, Option<Seq<u8>>>,
    db: Database,
    t: Seq<char>,
    ck: Seq<char>,
    records: Seq<PairView>,
    plen: nat,
    positions: Seq<usize>,
    n: nat,
) -> Option<Result<Map<Seq<u8>, Option<Seq<u8>>>, RowError>>
    decreases records.len(),
{
    if records.len() == 0 {
        Some(Ok(m))
    } else {
        match rows_indexed(m, db, t, ck, records.drop_last(), plen, positions, n) {
            Some(Ok(m1)) => {
                let r = records.last();
                match decoded_row(r.1) {
                    Err(x) => Some(Err(x)),
                    Ok(row) => {
                        let vals = picked_cells(row, positions);
                        if vals.len() == n && plen <= r.0.len() {
                            let ek = sec_entry_key(t, ck, join(vals, "+"@));
                            match stored_value(db, ek) {
                                Some(st) => Some(Ok(entry_updated(m1, ek, st, utf8_lossy(r.0.subrange(plen as int, r.0.len() as int)), true))),
                                None => None,
                            }
                        } else {
                            Some(Ok(m1))
                        }
                    },
                }
            },
            other => other,
        }
    }
}

/// Indexing that failed, or could not be read, stays so as rows are added.
proof fn lemma_rows_indexed_failed(
    m: Map<Seq<u8>, Option<Seq<u8>>>,
    db: Database,
    t: Seq<char>,
    ck: Seq<char>,
    records: Seq<PairView>,
    plen: nat,
    positions: Seq<usize>,
    n: nat,
    i: int,
)
    requires
        0 <= i <= records.len(),
        !(rows_indexed(m, db, t, ck, records.take(i), plen, positions, n) matches Some(Ok(_))),
    ensures
        rows_indexed(m, db, t, ck, records, plen, positions, n) == rows_indexed(m, db, t, ck, records.take(i), plen, positions, n),
    decreases records.len() - i,
{
    if i < records.len() {
        assert(records.take(i + 1).drop_last() =~= records.take(i));
        lemma_rows_indexed_failed(m, db, t, ck, records, plen, positions, n, i + 1);
    } else {
        assert(records.take(i) =~= records);
    }
}

/// What `update_for_column` leaves pending inside a transaction, as `db` gives the indexes of
/// table `t` and the stored entry: the entry of `col_val` updated when an index is on exactly
/// `column`; `None` when the database cannot be read cleanly.
pub open spec fn column_entry_updated(
    m: Map<Seq<u8>, Option<Seq<u8>>>,
    db: Database,
    t: Seq<char>,
    column: Seq<char>,
    col_val: Seq<char>,
    pk: Seq<char>,
    add: bool,
) -> Option<Map<Seq<u8>, Option<Seq<u8>>>> {
    match index_defs(db, t) {
        Some(defs) => if defs.contains(column) {
            match stored_value(db, sec_entry_key(t, column, col_val)) {
                Some(st) => Some(entry_updated(m, sec_entry_key(t, column, col_val), st, pk, add)),
                None => None,
            }
        } else {
            Some(m)
        },
        None => None,
    }
}

/// The index definitions (the indexed column lists) of table `t` that `db` lists, in key
/// order; `None` when the database cannot be scanned cleanly.
pub open spec fn index_defs(db: Database, t: Seq<char>) -> Option<Seq<Seq<char>>> {
    if db.tree().pool().coherent() {
        match scan_result(pages_of(db.tree().pool()), db.tree().root(), encode_utf8("__index__:"@ + t + ":"@), db.tree().pool().store().len()) {
            Some(ps) => Some(ps.map_values(|p: PairView| utf8_lossy(p.1))),
            None => None,
        }
    } else {
        None
    }
}

/// The values of the registered indexes of `table` (the indexed column lists).
fn index_specs(db: &mut Database, table_name: &str) -> (r: Result<Vec<String>, DbError>)
    requires
        old(db).wf(),
    ensures
        final(db).wf(),
        old(db).log().spec_pending().is_prefix_of(final(db).log().spec_pending()),
        final(db).logging() == old(db).logging(),
        Database::same_contents(*old(db), *final(db)),
        match index_defs(*old(db), table_name@) {
            Some(defs) => r matches Ok(v) && strings_view(v@) == defs,
            None => old(db).tree().pool().coherent() ==> r is Err,
        },
        crate::storage::log_full_only_at_limit(r, *final(db)),
{
    let mut p: Vec<char> = Vec::new();
    push_str(&mut p, "__index__:");
    push_str(&mut p, table_name);
    push_str(&mut p, ":");
    let prefix = chars_bytes(p.as_slice());
    let records = match db.scan_prefix(prefix.as_slice()) {
        Ok(rs) => rs,
        Err(e) => {
            return Err(e);
        },
    };
    let ghost ps = pairs_view(records@);
    let mut out: Vec<String> = Vec::new();
    let mut i: usize = 0;
    while i < records.len()
        invariant
            i <= records@.len(),
            ps == pairs_view(records@),
            strings_view(out@) == ps.take(i as int).map_values(|p: PairView| utf8_lossy(p.1)),
        decreases records@.len() - i,
    {
        let ghost prev = out@;
        out.push(string_from_utf8_lossy(records[i].1.as_slice()));
        proof {
            assert(ps[i as int].1 == records@[i as int].1@);
            assert(strings_view(out@) =~= strings_view(prev).push(utf8_lossy(ps[i as int].1)));
            assert(ps.take(i + 1).map_values(|p: PairView| utf8_lossy(p.1)) =~= ps.take(i as int).map_values(|p: PairView| utf8_lossy(p.1)).push(utf8_lossy(ps[i as int].1)));
        }
        i = i + 1;
    }
    proof {
        assert(ps.take(i as int) =~= ps);
    }
    Ok(out)
}

/// The value that column `c` has in a row of `values` under column names `names`: the value
/// at the first position of `c`, when there is one.
pub open spec fn column_value(c: Seq<char>, names: Seq<Seq<char>>, values: Seq<Seq<char>>) -> Option<Seq<char>> {
    match first_position(names, c) {
        Some(j) => if j < values.len() {
            Some(values[j])
        } else {
            None
        },
        None => None,
    }
}

/// The values that the columns `cols` have in a row, in order, skipping a column without one.
pub open spec fn column_values_of(cols: Seq<Seq<char>>, names: Seq<Seq<char>>, values: Seq<Seq<char>>) -> Seq<Seq<char>>
    decreases cols.len(),
{
    if cols.len() == 0 {
        Seq::empty()
    } else {
        let prev = column_values_of(cols.drop_last(), names, values);
        match column_value(cols.last(), names, values) {
            Some(v) => prev.push(v),
            None => prev,
        }
    }
}

/// The values of the listed columns in a row, in list order; a column that is not in
/// `col_names` (or past the row's end) is skipped.
fn column_values(cols: &Vec<Vec<char>>, col_names: &[String], values: &[String]) -> (r: Vec<String>)
    ensures
        r@.len() <= cols@.len(),
        strings_view(r@) == column_values_of(vstrings(cols@), strings_view(col_names@), strings_view(values@)),
{
    let ghost cs = vstrings(cols@);
    let ghost names = strings_view(col_names@);
    let ghost vals = strings_view(values@);
    let mut out: Vec<String> = Vec::new();
    let mut c: usize = 0;
    proof {
        assert(cs.take(0) =~= Seq::<Seq<char>>::empty());
        assert(strings_view(out@) =~= Seq::<Seq<char>>::empty());
    }
    while c < cols.len()
        invariant
            c <= cols@.len(),
            out@.len() <= c,
            cs == vstrings(cols@),
            names == strings_view(col_names@),
            vals == strings_view(values@),
            strings_view(out@) == column_values_of(cs.take(c as int), names, vals),
        decreases cols@.len() - c,
    {
        let mut j: usize = 0;
        let mut found = false;
        while j < col_names.len()
            invariant_except_break
                !found,
            invariant
                j <= col_names@.len(),
                c < cols@.len(),
                cs == vstrings(cols@),
                names == strings_view(col_names@),
                forall|m: int| 0 <= m < j ==> names[m] != cs[c as int],
            ensures
                found ==> j < col_names@.len() && names[j as int] == cs[c as int],
                !found ==> j == col_names@.len(),
            decreases col_names@.len() - j,
        {
            proof {
                assert(names[j as int] == col_names@[j as int]@);
                assert(cs[c as int] == cols@[c as int]@);
            }
            if chars_eq(chars_of(col_names[j].as_str()).as_slice(), cols[c].as_slice()) {
                found = true;
                break;
            }
            j = j + 1;
        }
        proof {
            assert(cs.take(c + 1).drop_last() =~= cs.take(c as int));
            assert(cs.take(c + 1).last() == cs[c as int]);
            if found {
                lemma_first_position(names, cs[c as int], j as int);
            } else {
                assert(first_position(names, cs[c as int]) is None) by {
                    if exists|i: int| 0 <= i < names.len() && names[i] == cs[c as int] {
                        let i = choose|i: int| 0 <= i < names.len() && names[i] == cs[c as int];
                        assert(names[i] != cs[c as int]);
                    }
                }
            }
        }
        if found && j < values.len() {
            let ghost prev = out@;
            out.push(string_of(chars_of(values[j].as_str()).as_slice()));
            proof {
                assert(vals[j as int] == values@[j as int]@);
                assert(strings_view(out@) =~= strings_view(prev).push(vals[j as int]));
            }
        }
        c = c + 1;
    }
    proof {
        assert(cs.take(c as int) =~= cs);
    }
    out
}

fn strings_from(v: &Vec<Vec<char>>) -> (r: Vec<String>)
    ensures
        strings_view(r@) == vstrings(v@),
{
    let mut out: Vec<String> = Vec::new();
    let mut i: usize = 0;
    while i < v.len()
        invariant
            i <= v@.len(),
            strings_view(out@) == vstrings(v@).take(i as int),
        decreases v@.len() - i,
    {
        let ghost prev = out@;
        let st = string_of(v[i].as_slice());
        out.push(st);
        assert(strings_view(out@) =~= strings_view(prev).push(v@[i as int]@));
        i = i + 1;
        assert(strings_view(out@) =~= vstrings(v@).take(i as int));
    }
    assert(vstrings(v@).take(i as int) =~= vstrings(v@));
    out
}

/// For every index of `table` whose columns all have a value in the row, adds (`add`) or
/// removes `pk` at the entry of the joined values under the joined column names ('+'
/// between them).
#[verifier::spinoff_prover]
#[verifier::rlimit(60)]
fn update_all_secondary_indexes(db: &mut Database, buffer: &mut WriteBuffer, in_transaction: bool, table_name: &str, col_names: &[String], values: &[String], pk: &str, add: bool) -> (r: Result<(), DbError>)
    requires
        old(db).wf(),
        old(buffer).wf(),
    ensures
        final(db).wf(),
        old(db).log().spec_pending().is_prefix_of(final(db).log().spec_pending()),
        final(db).logging() == old(db).logging(),
        final(buffer).wf(),
        !in_transaction ==> *final(buffer) == *old(buffer),
        same_but_index(old(buffer).view_map(), final(buffer).view_map(), table_name@),
        in_transaction ==> Database::same_contents(*old(db), *final(db)),
        in_transaction ==> match index_defs(*old(db), table_name@) {
            Some(defs) => match index_entries_updated(
                old(buffer).view_map(),
                *old(db),
                table_name@,
                defs,
                strings_view(col_names@),
                strings_view(values@),
                pk@,
                add,
            ) {
                Some(m) => r is Ok && final(buffer).view_map() == m,
                None => true,
            },
            None => true,
        },
        !in_transaction && index_defs(*old(db), table_name@) == Some(Seq::<Seq<char>>::empty()) ==> r is Ok && Database::same_contents(*old(db), *final(db)),
        crate::storage::log_full_only_at_limit(r, *final(db)),
{
    let ghost db0 = *old(db);
    let ghost m0 = old(buffer).view_map();
    let ghost names = strings_view(col_names@);
    let ghost vals = strings_view(values@);
    let specs = match index_specs(db, table_name) {
        Ok(v) => v,
        Err(e) => {
            return Err(e);
        },
    };
    let ghost defs = strings_view(specs@);
    let ghost full = index_defs(db0, table_name@) == Some(defs) && index_entries_updated(m0, db0, table_name@, defs, names, vals, pk@, add) is Some;
    let mut i: usize = 0;
    proof {
        assert(defs.take(0) =~= Seq::<Seq<char>>::empty());
    }
    while i < specs.len()
        invariant
            db.wf(),
            buffer.wf(),
            !in_transaction ==> *buffer == *old(buffer),
            same_but_index(old(buffer).view_map(), buffer.view_map(), table_name@),
            old(db).log().spec_pending().is_prefix_of(db.log().spec_pending()),
            db.logging() == old(db).logging(),
            i <= specs@.len(),
            defs == strings_view(specs@),
            db0 == *old(db),
            m0 == old(buffer).view_map(),
            names == strings_view(col_names@),
            vals == strings_view(values@),
            full == (index_defs(db0, table_name@) == Some(defs) && index_entries_updated(m0, db0, table_name@, defs, names, vals, pk@, add) is Some),
            in_transaction ==> Database::same_contents(db0, *db),
            index_defs(db0, table_name@) is Some ==> index_defs(db0, table_name@) == Some(defs),
            in_transaction && full ==> index_entries_updated(m0, db0, table_name@, defs.take(i as int), names, vals, pk@, add) == Some(buffer.view_map()),
            defs.len() == 0 ==> Database::same_contents(db0, *db),
        decreases specs@.len() - i,
    {
        let spec_chars = chars_of(specs[i].as_str());
        let cols = split_char_exec(spec_chars.as_slice(), ',');
        let col_vals = column_values(&cols, col_names, values);
        proof {
            assert(defs[i as int] == specs@[i as int]@);
            assert(vstrings(cols@) == split_char(defs[i as int], ','));
            assert(defs.take(i + 1).drop_last() =~= defs.take(i as int));
            assert(defs.take(i + 1).last() == defs[i as int]);
            if in_transaction && full {
                lemma_entries_prefix(m0, db0, table_name@, defs, names, vals, pk@, add, i + 1);
            }
        }
        if col_vals.len() == cols.len() {
            let mut composite: Vec<char> = Vec::new();
            push_joined(&mut composite, col_vals.as_slice(), "+");
            let col_strings = strings_from(&cols);
            let mut column_key: Vec<char> = Vec::new();
            push_joined(&mut column_key, col_strings.as_slice(), "+");
            let ck = string_of(column_key.as_slice());
            let cv = string_of(composite.as_slice());
            let ghost ek = sec_entry_key(table_name@, ck@, cv@);
            let ghost before = *db;
            proof {
                assert(ck@ == join(split_char(defs[i as int], ','), "+"@));
                assert(cv@ == join(column_values_of(split_char(defs[i as int], ','), names, vals), "+"@));
                if in_transaction && full {
                    let st = stored_value(db0, ek);
                    assert(st is Some);
                    crate::storage::lemma_same_contents_lookup(db0, *db, ek);
                    assert(db.tree().pool().coherent() && db.tree().sorted_leaf_for(ek) && db.tree().lookup(ek) == st);
                }
            }
            let res = if add {
                sec_idx_add(db, buffer, in_transaction, table_name, ck.as_str(), cv.as_str(), pk)
            } else {
                sec_idx_remove(db, buffer, in_transaction, table_name, ck.as_str(), cv.as_str(), pk)
            };
            match res {
                Ok(()) => {},
                Err(e) => {
                    return Err(e);
                },
            }
            proof {
                if in_transaction {
                    crate::storage::lemma_same_contents_trans(db0, before, *db);
                }
            }
        }
        i = i + 1;
    }
    proof {
        assert(defs.take(i as int) =~= defs);
    }
    Ok(())
}

/// Adds the row's primary key to every secondary index of `table` whose columns all have a
/// value in the row.
pub fn sync_secondary_indexes_on_insert(db: &mut Database, buffer: &mut WriteBuffer, in_transaction: bool, table_name: &str, col_names: &[String], values: &[String], pk: &str) -> (r: Result<(), DbError>)
    requires
        old(db).wf(),
        old(buffer).wf(),
    ensures
        final(db).wf(),
        old(db).log().spec_pending().is_prefix_of(final(db).log().spec_pending()),
        final(db).logging() == old(db).logging(),
        final(buffer).wf(),
        !in_transaction ==> *final(buffer) == *old(buffer),
        same_but_index(old(buffer).view_map(), final(buffer).view_map(), table_name@),
        in_transaction ==> Database::same_contents(*old(db), *final(db)),
        in_transaction ==> match index_defs(*old(db), table_name@) {
            Some(defs) => match index_entries_updated(
                old(buffer).view_map(),
                *old(db),
                table_name@,
                defs,
                strings_view(col_names@),
                strings_view(values@),
                pk@,
                true,
            ) {
                Some(m) => r is Ok && final(buffer).view_map() == m,
                None => true,
            },
            None => true,
        },
        !in_transaction && index_defs(*old(db), table_name@) == Some(Seq::<Seq<char>>::empty()) ==> r is Ok && Database::same_contents(*old(db), *final(db)),
        crate::storage::log_full_only_at_limit(r, *final(db)),
{
    update_all_secondary_indexes(db, buffer, in_transaction, table_name, col_names, values, pk, true)
}

/// Removes the row's primary key from every secondary index of `table` whose columns all
/// have a value in the row.
pub fn remove_all_secondary_indexes(db: &mut Database, buffer: &mut WriteBuffer, in_transaction: bool, table_name: &str, col_names: &[String], row_values: &[String], pk: &str) -> (r: Result<(), DbError>)
    requires
        old(db).wf(),
        old(buffer).wf(),
    ensures
        final(db).wf(),
        old(db).log().spec_pending().is_prefix_of(final(db).log().spec_pending()),
        final(db).logging() == old(db).logging(),
        final(buffer).wf(),
        !in_transaction ==> *final(buffer) == *old(buffer),
        same_but_index(old(buffer).view_map(), final(buffer).view_map(), table_name@),
        in_transaction ==> Database::same_contents(*old(db), *final(db)),
        in_transaction ==> match index_defs(*old(db), table_name@) {
            Some(defs) => match index_entries_updated(
                old(buffer).view_map(),
                *old(db),
                table_name@,
                defs,
                strings_view(col_names@),
                strings_view(row_values@),
                pk@,
                false,
            ) {
                Some(m) => r is Ok && final(buffer).view_map() == m,
                None => true,
            },
            None => true,
        },
        !in_transaction && index_defs(*old(db), table_name@) == Some(Seq::<Seq<char>>::empty()) ==> r is Ok && Database::same_contents(*old(db), *final(db)),
        crate::storage::log_full_only_at_limit(r, *final(db)),
{
    update_all_secondary_indexes(db, buffer, in_transaction, table_name, col_names, row_values, pk, false)
}

/// Adds or removes `pk` at the entry of `col_val` in every index of `table` registered on
/// exactly `column`.
fn update_for_column(db: &mut Database, buffer: &mut WriteBuffer, in_transaction: bool, table_name: &str, column: &str, col_val: &str, pk: &str, add: bool) -> (r: Result<(), DbError>)
    requires
        old(db).wf(),
        old(buffer).wf(),
    ensures
        final(db).wf(),
        old(db).log().spec_pending().is_prefix_of(final(db).log().spec_pending()),
        final(db).logging() == old(db).logging(),
        final(buffer).wf(),
        !in_transaction ==> *final(buffer) == *old(buffer),
        same_but_index(old(buffer).view_map(), final(buffer).view_map(), table_name@),
        in_transaction ==> Database::same_contents(*old(db), *final(db)),
        in_transaction ==> match column_entry_updated(old(buffer).view_map(), *old(db), table_name@, column@, col_val@, pk@, add) {
            Some(m) => r is Ok && final(buffer).view_map() == m,
            None => true,
        },
        !in_transaction && (index_defs(*old(db), table_name@) matches Some(defs) && !defs.contains(column@))
            ==> r is Ok && Database::same_contents(*old(db), *final(db)),
        crate::storage::log_full_only_at_limit(r, *final(db)),
{
    let ghost db0 = *old(db);
    let ghost m0 = old(buffer).view_map();
    let ghost ek = sec_entry_key(table_name@, column@, col_val@);
    let specs = match index_specs(db, table_name) {
        Ok(v) => v,
        Err(e) => {
            return Err(e);
        },
    };
    let ghost defs = strings_view(specs@);
    let col_chars = chars_of(column);
    let mut i: usize = 0;
    proof {
        assert(defs.take(0) =~= Seq::<Seq<char>>::empty());
        if stored_value(db0, ek) is Some {
            crate::storage::lemma_same_contents_lookup(db0, *db, ek);
        }
    }
    while i < specs.len()
        invariant
            db.wf(),
            buffer.wf(),
            !in_transaction ==> *buffer == *old(buffer),
            same_but_index(old(buffer).view_map(), buffer.view_map(), table_name@),
            old(db).log().spec_pending().is_prefix_of(db.log().spec_pending()),
            db.logging() == old(db).logging(),
            i <= specs@.len(),
            defs == strings_view(specs@),
            col_chars@ == column@,
            db0 == *old(db),
            m0 == old(buffer).view_map(),
            ek == sec_entry_key(table_name@, column@, col_val@),
            in_transaction ==> Database::same_contents(db0, *db),
            index_defs(db0, table_name@) is Some ==> index_defs(db0, table_name@) == Some(defs),
            !in_transaction && index_defs(db0, table_name@) == Some(defs) && !defs.contains(column@) ==> Database::same_contents(db0, *db),
            in_transaction && index_defs(db0, table_name@) == Some(defs) ==> match stored_value(db0, ek) {
                Some(st) => {
                    &&& stored_value(*db, ek) == Some(st)
                    &&& buffer.view_map() == if defs.take(i as int).contains(column@) {
                        entry_updated(m0, ek, st, pk@, add)
                    } else {
                        m0
                    }
                },
                None => !defs.take(i as int).contains(column@) ==> buffer.view_map() == m0,
            },
        decreases specs@.len() - i,
    {
        proof {
            assert(defs.take(i + 1).drop_last() =~= defs.take(i as int));
            assert(defs[i as int] == specs@[i as int]@);
            let d1 = defs.take(i + 1);
            let d0 = defs.take(i as int);
            assert forall|x: Seq<char>| #[trigger] d1.contains(x) <==> d0.contains(x) || x == defs[i as int] by {
                if d1.contains(x) {
                    let k = choose|k: int| 0 <= k < d1.len() && #[trigger] d1[k] == x;
                    if k < i {
                        assert(d0[k] == x);
                    }
                }
                if x == defs[i as int] {
                    assert(d1[i as int] == x);
                }
                if d0.contains(x) {
                    let k = choose|k: int| 0 <= k < d0.len() && #[trigger] d0[k] == x;
                    assert(d1[k] == x);
                }
            }
        }
        if chars_eq(chars_of(specs[i].as_str()).as_slice(), col_chars.as_slice()) {
            let ghost before = *db;
            let ghost mb = buffer.view_map();
            proof {
                if in_transaction && index_defs(db0, table_name@) == Some(defs) {
                    match stored_value(db0, ek) {
                        Some(st) => {
                            assert(db.tree().pool().coherent() && db.tree().sorted_leaf_for(ek) && db.tree().lookup(ek) == Some(st));
                        },
                        None => {},
                    }
                }
            }
            let res = if add {
                sec_idx_add(db, buffer, in_transaction, table_name, column, col_val, pk)
            } else {
                sec_idx_remove(db, buffer, in_transaction, table_name, column, col_val, pk)
            };
            match res {
                Ok(()) => {},
                Err(e) => {
                    proof {
                        if in_transaction && column_entry_updated(m0, db0, table_name@, column@, col_val@, pk@, add) is Some {
                            assert(defs[i as int] == column@);
                            assert(defs.contains(column@));
                            assert(stored_value(db0, ek) is Some);
                        }
                    }
                    return Err(e);
                },
            }
            proof {
                if in_transaction {
                    crate::storage::lemma_same_contents_trans(db0, before, *db);
                    match stored_value(db0, ek) {
                        Some(st) => {
                            crate::storage::lemma_same_contents_lookup(db0, *db, ek);
                            if index_defs(db0, table_name@) == Some(defs) {
                                assert(buffer.view_map() =~= entry_updated(m0, ek, st, pk@, add));
                            }
                        },
                        None => {},
                    }
                }
            }
        }
        i = i + 1;
    }
    proof {
        assert(defs.take(i as int) =~= defs);
    }
    Ok(())
}

/// Adds `pk` at the entry of `col_val` in every index on exactly `column`.
pub fn sec_idx_add_for_column(db: &mut Database, buffer: &mut WriteBuffer, in_transaction: bool, table_name: &str, column: &str, col_val: &str, pk: &str) -> (r: Result<(), DbError>)
    requires
        old(db).wf(),
        old(buffer).wf(),
    ensures
        final(db).wf(),
        old(db).log().spec_pending().is_prefix_of(final(db).log().spec_pending()),
        final(db).logging() == old(db).logging(),
        final(buffer).wf(),
        !in_transaction ==> *final(buffer) == *old(buffer),
        same_but_index(old(buffer).view_map(), final(buffer).view_map(), table_name@),
        in_transaction ==> Database::same_contents(*old(db), *final(db)),
        in_transaction ==> match column_entry_updated(old(buffer).view_map(), *old(db), table_name@, column@, col_val@, pk@, true) {
            Some(m) => r is Ok && final(buffer).view_map() == m,
            None => true,
        },
        !in_transaction && (index_defs(*old(db), table_name@) matches Some(defs) && !defs.contains(column@))
            ==> r is Ok && Database::same_contents(*old(db), *final(db)),
        crate::storage::log_full_only_at_limit(r, *final(db)),
{
    update_for_column(db, buffer, in_transaction, table_name, column, col_val, pk, true)
}

/// Removes `pk` from the entry of `col_val` in every index on exactly `column`.
pub fn sec_idx_remove_for_column(db: &mut Database, buffer: &mut WriteBuffer, in_transaction: bool, table_name: &str, column: &str, col_val: &str, pk: &str) -> (r: Result<(), DbError>)
    requires
        old(db).wf(),
        old(buffer).wf(),
    ensures
        final(db).wf(),
        old(db).log().spec_pending().is_prefix_of(final(db).log().spec_pending()),
        final(db).logging() == old(db).logging(),
        final(buffer).wf(),
        !in_transaction ==> *final(buffer) == *old(buffer),
        same_but_index(old(buffer).view_map(), final(buffer).view_map(), table_name@),
        in_transaction ==> Database::same_contents(*old(db), *final(db)),
        in_transaction ==> match column_entry_updated(old(buffer).view_map(), *old(db), table_name@, column@, col_val@, pk@, false) {
            Some(m) => r is Ok && final(buffer).view_map() == m,
            None => true,
        },
        !in_transaction && (index_defs(*old(db), table_name@) matches Some(defs) && !defs.contains(column@))
            ==> r is Ok && Database::same_contents(*old(db), *final(db)),
        crate::storage::log_full_only_at_limit(r, *final(db)),
{
    update_for_column(db, buffer, in_transaction, table_name, column, col_val, pk, false)
}

/// The legacy description of `table`: the pending write of its key inside a transaction
/// when there is one, else the database's value.
pub fn get_schema_bytes(db: &mut Database, buffer: &WriteBuffer, in_transaction: bool, table_name: &str) -> (r: Result<Option<Vec<u8>>, DbError>)
    requires
        old(db).wf(),
        buffer.wf(),
    ensures
        final(db).wf(),
        Database::same_contents(*old(db), *final(db)),
        in_transaction && buffer.view_map().dom().contains(encode_utf8("__schema__:"@ + table_name@)) ==> (r matches Ok(v) && opt_view(v) == buffer.view_map()[encode_utf8("__schema__:"@ + table_name@)]),
        !(in_transaction && buffer.view_map().dom().contains(encode_utf8("__schema__:"@ + table_name@)))
            && old(db).tree().pool().coherent() && old(db).tree().sorted_leaf_for(encode_utf8("__schema__:"@ + table_name@))
            ==> match old(db).tree().lookup(encode_utf8("__schema__:"@ + table_name@)) {
                Some(Some(v)) => r matches Ok(Some(b)) && b@ == v,
                Some(None) => r matches Ok(None),
                None => r is Err,
            },
        crate::storage::log_full_only_at_limit(r, *final(db)),
{
    let mut k: Vec<char> = Vec::new();
    push_str(&mut k, "__schema__:");
    push_str(&mut k, table_name);
    let key = chars_bytes(k.as_slice());
    if in_transaction && buffer.contains_key(key.as_slice()) {
        match buffer.get(key.as_slice()) {
            Some(v) => Ok(v),
            None => Ok(None),
        }
    } else {
        db.get(key.as_slice())
    }
}

/// The rows stored as `pairs` with the pending writes whose key starts with `prefix` laid
/// over them: a write replaces or adds its key, a delete removes it. Keys stay in order.
pub open spec fn overlaid(pairs: Seq<PairView>, writes: Seq<WriteView>, prefix: Seq<u8>) -> Seq<PairView>
    decreases writes.len(),
{
    if writes.len() == 0 {
        pairs
    } else {
        let rest = overlaid(pairs, writes.drop_last(), prefix);
        let w = writes.last();
        if crate::storage::tree::has_prefix(w.0, prefix) {
            apply_write(rest, w)
        } else {
            rest
        }
    }
}

/// The first index whose key is not before `k`.
pub open spec fn first_not_before(ps: Seq<PairView>, k: Seq<u8>) -> int
    decreases ps.len(),
{
    if ps.len() == 0 {
        0
    } else if bytes_lt(ps[0].0, k) {
        1 + first_not_before(ps.drop_first(), k)
    } else {
        0
    }
}

/// One pending write applied to key-ordered pairs.
pub open spec fn apply_write(ps: Seq<PairView>, w: WriteView) -> Seq<PairView> {
    let i = first_not_before(ps, w.0);
    let found = i < ps.len() && ps[i].0 == w.0;
    match w.1 {
        Some(v) => if found {
            ps.update(i, (w.0, v))
        } else {
            ps.insert(i, (w.0, v))
        },
        None => if found {
            ps.remove(i)
        } else {
            ps
        },
    }
}

proof fn lemma_first_not_before(ps: Seq<PairView>, k: Seq<u8>)
    ensures
        0 <= first_not_before(ps, k) <= ps.len(),
        forall|j: int| 0 <= j < first_not_before(ps, k) ==> bytes_lt(#[trigger] ps[j].0, k),
        first_not_before(ps, k) < ps.len() ==> !bytes_lt(ps[first_not_before(ps, k)].0, k),
    decreases ps.len(),
{
    if ps.len() > 0 && bytes_lt(ps[0].0, k) {
        lemma_first_not_before(ps.drop_first(), k);
        assert forall|j: int| 0 <= j < first_not_before(ps, k) implies bytes_lt(#[trigger] ps[j].0, k) by {
            if j > 0 {
                assert(ps[j] == ps.drop_first()[j - 1]);
            }
        }
    }
}

fn apply_write_exec(ps: &mut Vec<(Vec<u8>, Vec<u8>)>, key: &[u8], value: &Option<Vec<u8>>)
    ensures
        crate::storage::tree::pairs_view(final(ps)@) == apply_write(crate::storage::tree::pairs_view(old(ps)@), (key@, opt_view(*value))),
{
    let ghost pv = crate::storage::tree::pairs_view(ps@);
    proof {
        lemma_first_not_before(pv, key@);
    }
    let mut i: usize = 0;
    assert(pv.skip(0) =~= pv);
    while i < ps.len()
        invariant
            pv == crate::storage::tree::pairs_view(ps@),
            i <= pv.len(),
            first_not_before(pv, key@) == i + first_not_before(pv.skip(i as int), key@),
        ensures
            i <= pv.len(),
            first_not_before(pv, key@) == i as int,
        decreases pv.len() - i,
    {
        assert(pv.skip(i as int)[0] == pv[i as int]);
        assert(pv[i as int].0 == ps@[i as int].0@);
        if !bytes_less(ps[i].0.as_slice(), key) {
            break;
        }
        assert(pv.skip(i as int).drop_first() =~= pv.skip(i + 1));
        i = i + 1;
    }
    proof {
        if i == pv.len() {
            assert(pv.skip(i as int).len() == 0);
        }
    }
    let found = i < ps.len() && crate::codec::bytes_eq(ps[i].0.as_slice(), key);
    match value {
        Some(v) => {
            let k = crate::codec::copy_bytes(key);
            let vv = crate::codec::copy_bytes(v.as_slice());
            if found {
                ps.set(i, (k, vv));
            } else {
                ps.insert(i, (k, vv));
            }
            assert(crate::storage::tree::pairs_view(ps@) =~= apply_write(pv, (key@, opt_view(*value))));
        },
        None => {
            if found {
                let _ = ps.remove(i);
            }
            assert(crate::storage::tree::pairs_view(ps@) =~= apply_write(pv, (key@, opt_view(*value))));
        },
    }
}

pub open spec fn rows_of(ps: Seq<PairView>) -> Result<Seq<Seq<Seq<char>>>, RowError>
    decreases ps.len(),
{
    if ps.len() == 0 {
        Ok(Seq::empty())
    } else {
        match rows_of(ps.drop_last()) {
            Err(e) => Err(e),
            Ok(rows) => match decoded_row(ps.last().1) {
                Ok(r) => Ok(rows.push(r)),
                Err(e) => Err(e),
            },
        }
    }
}

/// Why the rows of a table cannot be read.
#[derive(Debug, Clone, PartialEq, Eq)]
pub enum ScanError {
    Db(DbError),
    Row(RowError),
}

/// Decodes every stored row.
pub fn decode_rows(ps: &Vec<(Vec<u8>, Vec<u8>)>) -> (r: Result<Vec<Vec<String>>, RowError>)
    ensures
        match rows_of(crate::storage::tree::pairs_view(ps@)) {
            Ok(rows) => r matches Ok(v) && rows_view(v@) == rows,
            Err(e) => r == Err::<Vec<Vec<String>>, RowError>(e),
        },
{
    let ghost pv = crate::storage::tree::pairs_view(ps@);
    let mut out: Vec<Vec<String>> = Vec::new();
    let mut i: usize = 0;
    assert(pv.take(0) =~= Seq::<PairView>::empty());
    assert(rows_view(out@) =~= Seq::<Seq<Seq<char>>>::empty());
    while i < ps.len()
        invariant
            pv == crate::storage::tree::pairs_view(ps@),
            i <= pv.len(),
            out@.len() == i,
            rows_of(pv.take(i as int)) == Ok::<Seq<Seq<Seq<char>>>, RowError>(rows_view(out@)),
        decreases pv.len() - i,
    {
        proof {
            assert(pv.take(i + 1).drop_last() =~= pv.take(i as int));
            assert(pv.take(i + 1).last() == pv[i as int]);
        }
        match decode_values(ps[i].1.as_slice()) {
            Ok(row) => {
                let ghost prev = out@;
                out.push(row);
                assert(rows_view(out@) =~= rows_view(prev).push(strings_view(out@[i as int]@)));
            },
            Err(e) => {
                proof {
                    lemma_rows_of_err(pv, i as int + 1, e);
                }
                assert(pv.take(pv.len() as int) =~= pv);
                return Err(e);
            },
        }
        i = i + 1;
    }
    assert(pv.take(i as int) =~= pv);
    Ok(out)
}

/// Once a row fails to decode, every longer prefix fails the same way.
proof fn lemma_rows_of_err(pv: Seq<PairView>, n: int, e: RowError)
    requires
        0 < n <= pv.len(),
        rows_of(pv.take(n)) == Err::<Seq<Seq<Seq<char>>>, RowError>(e),
    ensures
        rows_of(pv) == Err::<Seq<Seq<Seq<char>>>, RowError>(e),
    decreases pv.len() - n,
{
    if n < pv.len() {
        assert(pv.take(n + 1).drop_last() =~= pv.take(n));
        lemma_rows_of_err(pv, n + 1, e);
    } else {
        assert(pv.take(n) =~= pv);
    }
}

/// A write of `(k, v)` leaves `(k, v)` among the pairs.
proof fn lemma_write_present(ps: Seq<PairView>, k: Seq<u8>, v: Seq<u8>)
    ensures
        apply_write(ps, (k, Some(v))).contains((k, v)),
{
    lemma_first_not_before(ps, k);
    let i = first_not_before(ps, k);
    let r = apply_write(ps, (k, Some(v)));
    assert(r[i] == (k, v));
}

/// A write of another key keeps `(k, v)` among the pairs.
proof fn lemma_other_write_keeps(ps: Seq<PairView>, w: WriteView, k: Seq<u8>, v: Seq<u8>)
    requires
        ps.contains((k, v)),
        w.0 != k,
    ensures
        apply_write(ps, w).contains((k, v)),
{
    lemma_first_not_before(ps, w.0);
    let i = first_not_before(ps, w.0);
    let j = choose|j: int| 0 <= j < ps.len() && ps[j] == (k, v);
    let r = apply_write(ps, w);
    let found = i < ps.len() && ps[i].0 == w.0;
    match w.1 {
        Some(x) => {
            if found {
                assert(j != i);
                assert(r[j] == (k, v));
            } else if j < i {
                assert(r[j] == (k, v));
            } else {
                assert(r[j + 1] == (k, v));
            }
        },
        None => {
            if found {
                assert(j != i);
                if j < i {
                    assert(r[j] == (k, v));
                } else {
                    assert(r[j - 1] == (k, v));
                }
            } else {
                assert(r[j] == (k, v));
            }
        },
    }
}

/// Read your writes: with the pending writes of a transaction (in key order) laid over the
/// stored pairs of a table, every pending write of a row of that table shows its new value.
pub proof fn lemma_pending_write_visible(ps: Seq<PairView>, ws: Seq<WriteView>, prefix: Seq<u8>, j: int, k: Seq<u8>, v: Seq<u8>)
    requires
        crate::sql::write_buffer::writes_sorted(ws),
        0 <= j < ws.len(),
        ws[j] == (k, Some(v)),
        crate::storage::tree::has_prefix(k, prefix),
    ensures
        overlaid(ps, ws, prefix).contains((k, v)),
    decreases ws.len(),
{
    let rest = overlaid(ps, ws.drop_last(), prefix);
    let w = ws.last();
    if j == ws.len() - 1 {
        lemma_write_present(rest, k, v);
    } else {
        assert(crate::sql::write_buffer::writes_sorted(ws.drop_last()));
        assert(ws.drop_last()[j] == ws[j]);
        lemma_pending_write_visible(ps, ws.drop_last(), prefix, j, k, v);
        assert(bytes_lt(ws[j].0, ws[ws.len() - 1].0));
        if w.0 == k {
            crate::storage::ordered::lemma_bytes_lt_irreflexive(k);
        }
        if crate::storage::tree::has_prefix(w.0, prefix) {
            lemma_other_write_keeps(rest, w, k, v);
        }
    }
}

/// Pairs in strictly increasing key order.
pub open spec fn pairs_sorted(ps: Seq<PairView>) -> bool {
    forall|a: int, b: int| #![trigger ps[a], ps[b]] 0 <= a < b < ps.len() ==> bytes_lt(ps[a].0, ps[b].0)
}

/// Whether some pair has key `k`.
pub open spec fn has_key_in(ps: Seq<PairView>, k: Seq<u8>) -> bool {
    exists|i: int| 0 <= i < ps.len() && #[trigger] ps[i].0 == k
}

/// A write keeps pairs in strictly increasing key order.
proof fn lemma_write_keeps_sorted(ps: Seq<PairView>, w: WriteView)
    requires
        pairs_sorted(ps),
    ensures
        pairs_sorted(apply_write(ps, w)),
{
    lemma_first_not_before(ps, w.0);
    let i = first_not_before(ps, w.0);
    let found = i < ps.len() && ps[i].0 == w.0;
    let r = apply_write(ps, w);
    if !found && i < ps.len() {
        lemma_bytes_lt_total(w.0, ps[i].0);
    }
    assert forall|a: int, b: int| #![trigger r[a], r[b]] 0 <= a < b < r.len() implies bytes_lt(r[a].0, r[b].0) by {
        match w.1 {
            Some(x) => {
                if !found {
                    if b == i {
                        assert(bytes_lt(ps[a].0, w.0));
                    } else if a == i {
                        assert(r[b] == ps[b - 1]);
                        if b - 1 > i {
                            assert(bytes_lt(ps[i].0, ps[b - 1].0));
                            lemma_bytes_lt_transitive(w.0, ps[i].0, ps[b - 1].0);
                        }
                    } else if a < i && b > i {
                        assert(r[b] == ps[b - 1]);
                    } else if a > i {
                        assert(r[a] == ps[a - 1] && r[b] == ps[b - 1]);
                    }
                } else {
                    assert(r[a].0 == ps[a].0 && r[b].0 == ps[b].0);
                }
            },
            None => {
                if found {
                    if a >= i {
                        assert(r[a] == ps[a + 1] && r[b] == ps[b + 1]);
                    } else if b >= i {
                        assert(r[b] == ps[b + 1]);
                    }
                }
            },
        }
    }
}

/// Laying writes over sorted pairs keeps them sorted.
proof fn lemma_overlaid_sorted(ps: Seq<PairView>, ws: Seq<WriteView>, prefix: Seq<u8>)
    requires
        pairs_sorted(ps),
    ensures
        pairs_sorted(overlaid(ps, ws, prefix)),
    decreases ws.len(),
{
    if ws.len() > 0 {
        lemma_overlaid_sorted(ps, ws.drop_last(), prefix);
        if crate::storage::tree::has_prefix(ws.last().0, prefix) {
            lemma_write_keeps_sorted(overlaid(ps, ws.drop_last(), prefix), ws.last());
        }
    }
}

/// A delete of `k` leaves no pair with key `k` among sorted pairs.
proof fn lemma_delete_absent(ps: Seq<PairView>, k: Seq<u8>)
    requires
        pairs_sorted(ps),
    ensures
        !has_key_in(apply_write(ps, (k, None)), k),
{
    lemma_first_not_before(ps, k);
    let i = first_not_before(ps, k);
    let found = i < ps.len() && ps[i].0 == k;
    let r = apply_write(ps, (k, None));
    if has_key_in(r, k) {
        let j = choose|j: int| 0 <= j < r.len() && #[trigger] r[j].0 == k;
        lemma_bytes_lt_irreflexive(k);
        if found {
            if j < i {
                assert(bytes_lt(ps[j].0, k));
            } else {
                assert(r[j] == ps[j + 1]);
                assert(bytes_lt(ps[i].0, ps[j + 1].0));
            }
        } else {
            if j < i {
                assert(bytes_lt(ps[j].0, k));
            } else {
                lemma_bytes_lt_total(k, ps[i].0);
                if j > i {
                    assert(bytes_lt(ps[i].0, ps[j].0));
                    lemma_bytes_lt_asymmetric(ps[i].0, ps[j].0);
                }
            }
        }
    }
}

/// A write of another key adds no pair with key `k`.
proof fn lemma_other_write_keeps_absent(ps: Seq<PairView>, w: WriteView, k: Seq<u8>)
    requires
        !has_key_in(ps, k),
        w.0 != k,
    ensures
        !has_key_in(apply_write(ps, w), k),
{
    lemma_first_not_before(ps, w.0);
    let i = first_not_before(ps, w.0);
    let r = apply_write(ps, w);
    if has_key_in(r, k) {
        let j = choose|j: int| 0 <= j < r.len() && #[trigger] r[j].0 == k;
        let found = i < ps.len() && ps[i].0 == w.0;
        match w.1 {
            Some(x) => {
                if found {
                    assert(j != i);
                    assert(ps[j].0 == k);
                } else if j < i {
                    assert(ps[j].0 == k);
                } else if j > i {
                    assert(ps[j - 1].0 == k);
                }
            },
            None => {
                if found {
                    if j < i {
                        assert(ps[j].0 == k);
                    } else {
                        assert(ps[j + 1].0 == k);
                    }
                } else {
                    assert(ps[j].0 == k);
                }
            },
        }
    }
}

/// Read your deletes: with the pending writes of a transaction (in key order) laid over the
/// stored pairs of a table (in key order), a row the transaction deletes is not read.
pub proof fn lemma_pending_delete_hidden(ps: Seq<PairView>, ws: Seq<WriteView>, prefix: Seq<u8>, j: int, k: Seq<u8>)
    requires
        pairs_sorted(ps),
        crate::sql::write_buffer::writes_sorted(ws),
        0 <= j < ws.len(),
        ws[j] == (k, None::<Seq<u8>>),
        crate::storage::tree::has_prefix(k, prefix),
    ensures
        !has_key_in(overlaid(ps, ws, prefix), k),
    decreases ws.len(),
{
    let rest = overlaid(ps, ws.drop_last(), prefix);
    let w = ws.last();
    lemma_overlaid_sorted(ps, ws.drop_last(), prefix);
    if j == ws.len() - 1 {
        lemma_delete_absent(rest, k);
    } else {
        assert(crate::sql::write_buffer::writes_sorted(ws.drop_last()));
        assert(ws.drop_last()[j] == ws[j]);
        lemma_pending_delete_hidden(ps, ws.drop_last(), prefix, j, k);
        assert(bytes_lt(ws[j].0, ws[ws.len() - 1].0));
        if w.0 == k {
            crate::storage::ordered::lemma_bytes_lt_irreflexive(k);
        }
        if crate::storage::tree::has_prefix(w.0, prefix) {
            lemma_other_write_keeps_absent(rest, w, k);
        }
    }
}

/// The rows of `table` in key order: the stored rows under `<table>:` with, inside a
/// transaction, its pending writes laid over them.
pub fn scan_table_rows(db: &mut Database, buffer: &WriteBuffer, in_transaction: bool, table_name: &str) -> (r: Result<Vec<Vec<String>>, ScanError>)
    requires
        old(db).wf(),
        buffer.wf(),
    ensures
        final(db).wf(),
        Database::same_contents(*old(db), *final(db)),
        final(db).log() == old(db).log(),
        old(db).tree().pool().coherent() ==> match scan_result(
            pages_of(old(db).tree().pool()),
            old(db).tree().root(),
            encode_utf8(table_name@ + ":"@),
            old(db).tree().pool().store().len(),
        ) {
            None => r matches Err(ScanError::Db(_)),
            Some(ps) => match rows_of(overlaid(ps, visible_writes(buffer.writes(), in_transaction), encode_utf8(table_name@ + ":"@))) {
                Ok(rows) => r matches Ok(v) && rows_view(v@) == rows,
                Err(e) => r == Err::<Vec<Vec<String>>, ScanError>(ScanError::Row(e)),
            },
        },
        r matches Err(ScanError::Db(DbError::LogFull)) ==> final(db).logging() && final(db).log().spec_lsn() == u64::MAX,
{
    let mut p: Vec<char> = Vec::new();
    push_str(&mut p, table_name);
    push_str(&mut p, ":");
    let prefix = chars_bytes(p.as_slice());
    assert(p@ == table_name@ + ":"@);
    let mut records = match db.scan_prefix(prefix.as_slice()) {
        Ok(rs) => rs,
        Err(e) => {
            return Err(ScanError::Db(e));
        },
    };
    let ghost ps = pairs_view(records@);
    let ghost ws = visible_writes(buffer.writes(), in_transaction);
    if in_transaction {
        let n = buffer.len();
        let mut i: usize = 0;
        assert(ws.take(0) =~= Seq::<WriteView>::empty());
        while i < n
            invariant
                buffer.wf(),
                n == buffer.writes().len(),
                ws == buffer.writes(),
                prefix@ == encode_utf8(table_name@ + ":"@),
                i <= n,
                pairs_view(records@) == overlaid(ps, ws.take(i as int), prefix@),
            decreases n - i,
        {
            let (k, v) = buffer.entry(i);
            proof {
                assert(ws.take(i + 1).drop_last() =~= ws.take(i as int));
                assert(ws.take(i + 1).last() == ws[i as int]);
            }
            if crate::codec::starts_with_bytes(k.as_slice(), prefix.as_slice()) {
                apply_write_exec(&mut records, k.as_slice(), &v);
            }
            i = i + 1;
        }
        assert(ws.take(n as int) =~= ws);
    } else {
        assert(overlaid(ps, ws, prefix@) == ps);
    }
    match decode_rows(&records) {
        Ok(rows) => Ok(rows),
        Err(e) => Err(ScanError::Row(e)),
    }
}


/// One line per item: `| item |`.
pub open spec fn items_text(items: Seq<Seq<char>>) -> Seq<char>
    decreases items.len(),
{
    if items.len() == 0 {
        Seq::empty()
    } else {
        items_text(items.drop_last()) + "| "@ + items.last() + " |\n"@
    }
}

/// The text of a one-column listing: the title between rules, one line per item, a closing
/// rule, and the count followed by `unit`.
pub open spec fn listing(title: Seq<char>, items: Seq<Seq<char>>, unit: Seq<char>) -> Seq<char> {
    rule_line() + "| "@ + title + " |\n"@ + rule_line() + items_text(items) + rule_line() + decimal(items.len()) + unit
}

/// Formats a one-column listing.
pub fn list_output(title: &str, items: &[String], unit: &str) -> (r: String)
    ensures
        r@ == listing(title@, strings_view(items@), unit@),
{
    let mut out: Vec<char> = Vec::new();
    push_str(&mut out, "+-----------------+\n");
    push_str(&mut out, "| ");
    push_str(&mut out, title);
    push_str(&mut out, " |\n");
    push_str(&mut out, "+-----------------+\n");
    let ghost head = out@;
    let ghost iv = strings_view(items@);
    let mut i: usize = 0;
    while i < items.len()
        invariant
            iv == strings_view(items@),
            i <= items@.len(),
            out@ == head + items_text(iv.take(i as int)),
        decreases items@.len() - i,
    {
        push_str(&mut out, "| ");
        push_str(&mut out, items[i].as_str());
        push_str(&mut out, " |\n");
        proof {
            assert(iv.take(i + 1).drop_last() =~= iv.take(i as int));
            assert(iv.take(i + 1).last() == items@[i as int]@);
        }
        i = i + 1;
    }
    assert(iv.take(i as int) =~= iv);
    push_str(&mut out, "+-----------------+\n");
    let count = crate::network::pgwire::decimal_exec(items.len());
    push_all(&mut out, count.as_slice());
    push_str(&mut out, unit);
    string_of(out.as_slice())
}

/// The position of the first name equal to `c`.
pub open spec fn first_position(names: Seq<Seq<char>>, c: Seq<char>) -> Option<int> {
    if exists|i: int| 0 <= i < names.len() && names[i] == c {
        Some(choose|i: int| 0 <= i < names.len() && names[i] == c && forall|j: int| 0 <= j < i ==> names[j] != c)
    } else {
        None
    }
}

proof fn lemma_first_position(names: Seq<Seq<char>>, c: Seq<char>, i: int)
    requires
        0 <= i < names.len(),
        names[i] == c,
        forall|j: int| 0 <= j < i ==> names[j] != c,
    ensures
        first_position(names, c) == Some(i),
{
    let k = choose|k: int| 0 <= k < names.len() && names[k] == c && forall|j: int| 0 <= j < k ==> names[j] != c;
    assert(0 <= k < names.len() && names[k] == c && forall|j: int| 0 <= j < k ==> names[j] != c);
    if k < i {
        assert(names[k] != c);
    }
    if i < k {
        assert(names[i] != c);
    }
}

/// The position of the first of `names` equal to `c`.
pub fn column_position(names: &[String], c: &str) -> (r: Option<usize>)
    ensures
        match r {
            Some(i) => first_position(strings_view(names@), c@) == Some(i as int),
            None => first_position(strings_view(names@), c@) is None,
        },
{
    let ghost nv = strings_view(names@);
    let target = chars_of(c);
    let mut i: usize = 0;
    while i < names.len()
        invariant
            nv == strings_view(names@),
            target@ == c@,
            i <= names@.len(),
            forall|j: int| 0 <= j < i ==> nv[j] != c@,
        decreases names@.len() - i,
    {
        if chars_eq(chars_of(names[i].as_str()).as_slice(), target.as_slice()) {
            proof {
                lemma_first_position(nv, c@, i as int);
            }
            return Some(i);
        }
        i += 1;
    }
    assert(!exists|j: int| 0 <= j < nv.len() && nv[j] == c@);
    None
}

/// Whether a row of raw cells fits a table description: one cell per column, each parsing
/// as its column's type, and no `NULL` in a column that does not take it.
pub open spec fn row_fits(columns: Seq<ColumnDef>, values: Seq<Seq<char>>) -> bool {
    &&& values.len() == columns.len()
    &&& forall|i: int| 0 <= i < values.len() ==> cell_fits(#[trigger] columns[i], values[i])
}

/// Whether a raw cell fits a column.
pub open spec fn cell_fits(col: ColumnDef, raw: Seq<char>) -> bool {
    if is_null_text(trim(raw)) {
        col.is_nullable
    } else {
        parses_as(trim(raw), col.data_type)
    }
}

/// The error a row of raw cells that does not fit its table description gives: the column
/// count when it differs, else the first cell that does not fit, a `NULL` in a column that
/// takes none or a value of the wrong type.
pub open spec fn row_error(columns: Seq<ColumnDef>, values: Seq<String>) -> QueryError {
    if values.len() != columns.len() {
        QueryError::ColumnCount { expected: columns.len() as usize, got: values.len() as usize }
    } else {
        let i = choose|i: int| 0 <= i < values.len() && !cell_fits(columns[i], values[i]@)
            && forall|j: int| 0 <= j < i ==> cell_fits(#[trigger] columns[j], values[j]@);
        if is_null_text(trim(values[i]@)) {
            QueryError::NotNull { column: columns[i].name }
        } else {
            QueryError::InvalidValue { raw: values[i], data_type: columns[i].data_type }
        }
    }
}

proof fn lemma_row_error_at(columns: Seq<ColumnDef>, values: Seq<String>, i: int)
    requires
        values.len() == columns.len(),
        0 <= i < values.len(),
        !cell_fits(columns[i], values[i]@),
        forall|j: int| 0 <= j < i ==> cell_fits(#[trigger] columns[j], values[j]@),
    ensures
        row_error(columns, values) == (if is_null_text(trim(values[i]@)) {
            QueryError::NotNull { column: columns[i].name }
        } else {
            QueryError::InvalidValue { raw: values[i], data_type: columns[i].data_type }
        }),
{
    let k = choose|k: int| 0 <= k < values.len() && !cell_fits(columns[k], values[k]@)
        && forall|j: int| 0 <= j < k ==> cell_fits(#[trigger] columns[j], values[j]@);
    assert(k == i) by {
        if k < i {
            assert(cell_fits(columns[k], values[k]@));
        } else if k > i {
            assert(cell_fits(columns[i], values[i]@));
        }
    }
}

/// Checks a row of raw cells against a table description: the column count first, then the
/// cells in order, each for its type and then for `NULL`.
pub fn check_row(columns: &Vec<ColumnDef>, values: &[String]) -> (r: Result<(), QueryError>)
    ensures
        r is Ok <==> row_fits(columns@, strings_view(values@)),
        values@.len() != columns@.len() ==> r == Err::<(), QueryError>(QueryError::ColumnCount { expected: columns@.len() as usize, got: values@.len() as usize }),
        r is Err && values@.len() == columns@.len() ==> exists|i: int| 0 <= i < values@.len()
            && !cell_fits(columns@[i], values@[i]@)
            && (forall|j: int| 0 <= j < i ==> cell_fits(#[trigger] columns@[j], values@[j]@))
            && if is_null_text(trim(values@[i]@)) {
                r == Err::<(), QueryError>(QueryError::NotNull { column: columns@[i].name })
            } else {
                r == Err::<(), QueryError>(QueryError::InvalidValue { raw: values@[i], data_type: columns@[i].data_type })
            },
        r is Err ==> r == Err::<(), QueryError>(row_error(columns@, values@)),
{
    if values.len() != columns.len() {
        return Err(QueryError::ColumnCount { expected: columns.len(), got: values.len() });
    }
    let mut i: usize = 0;
    while i < values.len()
        invariant
            values@.len() == columns@.len(),
            i <= values@.len(),
            forall|j: int| 0 <= j < i ==> cell_fits(#[trigger] columns@[j], values@[j]@),
        decreases values@.len() - i,
    {
        match check_value(values[i].as_str(), &columns[i].data_type) {
            Err(()) => {
                proof {
                    lemma_row_error_at(columns@, values@, i as int);
                }
                return Err(QueryError::InvalidValue { raw: values[i].clone(), data_type: columns[i].data_type });
            },
            Ok(is_null) => {
                if is_null && !columns[i].is_nullable {
                    proof {
                        lemma_row_error_at(columns@, values@, i as int);
                    }
                    return Err(QueryError::NotNull { column: columns[i].name.clone() });
                }
            },
        }
        i += 1;
    }
    assert(row_fits(columns@, strings_view(values@))) by {
        assert forall|j: int| 0 <= j < values@.len() implies cell_fits(#[trigger] columns@[j], strings_view(values@)[j]) by {
            assert(strings_view(values@)[j] == values@[j]@);
        }
    }
    Ok(())
}

/// The pending writes a read sees: those of the open transaction, none outside one.
pub open spec fn visible_writes(writes: Seq<WriteView>, in_transaction: bool) -> Seq<WriteView> {
    if in_transaction {
        writes
    } else {
        Seq::empty()
    }
}

/// The rows a query keeps of `rows` after `LIMIT` and `OFFSET`, when given.
pub open spec fn windowed(rows: Seq<RowView>, limit_offset: Option<(usize, usize)>) -> Seq<RowView> {
    match limit_offset {
        Some((l, o)) => limit_window(rows, Some(l), o),
        None => rows,
    }
}

proof fn lemma_rows_views_agree(rows: Seq<Vec<String>>)
    ensures
        crate::sql::volcano::rows_view(rows) == rows_view(rows),
{
    assert(crate::sql::volcano::rows_view(rows) =~= rows_view(rows)) by {
        assert forall|i: int| 0 <= i < rows.len() implies crate::sql::volcano::rows_view(rows)[i] == rows_view(rows)[i] by {
            assert(row_view(rows[i]) =~= strings_view(rows[i]@));
        }
    }
}

/// The result table of a query: the column names as header, then the rows that `LIMIT` and
/// `OFFSET` keep.
pub fn finish_select(col_names: &[String], rows: Vec<Vec<String>>, limit_offset: Option<(usize, usize)>) -> (r: String)
    ensures
        r@ == table_output(strings_view(col_names@), windowed(rows_view(rows@), limit_offset)),
{
    let ghost all = rows_view(rows@);
    proof {
        lemma_rows_views_agree(rows@);
    }
    let scan = SeqScanExec::new(rows);
    let kept = match limit_offset {
        Some((limit, offset)) => {
            let mut plan = LimitOffsetExec::new(scan, Some(limit), offset);
            collect_rows(&mut plan)
        },
        None => {
            let mut plan = scan;
            collect_rows(&mut plan)
        },
    };
    proof {
        lemma_rows_views_agree(kept@);
    }
    format_table_output(col_names, kept.as_slice())
}

/// The result table of a join: the left then the right column names as header, then the
/// joined rows.
pub fn join_output(
    left_cols: Vec<String>,
    right_cols: Vec<String>,
    left_rows: Vec<Vec<String>>,
    right_rows: Vec<Vec<String>>,
    left_key: usize,
    right_key: usize,
    is_left_join: bool,
) -> (r: String)
    ensures
        r@ == table_output(
            strings_view(left_cols@) + strings_view(right_cols@),
            join_rows(
                rows_view(left_rows@),
                rows_view(right_rows@),
                left_key as int,
                right_key as int,
                if is_left_join { JoinType::Left } else { JoinType::Inner },
                right_cols@.len(),
            ),
        ),
{
    proof {
        lemma_rows_views_agree(left_rows@);
        lemma_rows_views_agree(right_rows@);
    }
    let join_type = if is_left_join {
        JoinType::Left
    } else {
        JoinType::Inner
    };
    let mut plan = HashJoinExec::new(
        SeqScanExec::new(left_rows),
        SeqScanExec::new(right_rows),
        left_key,
        right_key,
        join_type,
        right_cols.len(),
    );
    let rows = collect_rows(&mut plan);
    proof {
        lemma_rows_views_agree(rows@);
    }
    let mut header = left_cols;
    let ghost lv = strings_view(header@);
    let mut i: usize = 0;
    while i < right_cols.len()
        invariant
            i <= right_cols@.len(),
            strings_view(header@) == lv + strings_view(right_cols@).take(i as int),
        decreases right_cols@.len() - i,
    {
        let ghost before = strings_view(header@);
        header.push(right_cols[i].clone());
        assert(strings_view(header@) =~= before.push(right_cols@[i as int]@));
        assert(strings_view(right_cols@).take(i + 1) =~= strings_view(right_cols@).take(i as int).push(right_cols@[i as int]@));
        i += 1;
    }
    assert(strings_view(right_cols@).take(i as int) =~= strings_view(right_cols@));
    format_table_output(header.as_slice(), rows.as_slice())
}

/// Whether a table name (split as schema and table) names the virtual table `which` of
/// `information_schema`, ignoring ASCII case.
pub open spec fn is_virtual(name: (Seq<char>, Seq<char>), which: Seq<char>) -> bool {
    upper(name.1) == upper("information_schema."@ + which) || (upper(name.0) == upper("information_schema"@) && upper(name.1) == upper(which))
}

fn virtual_table(schema_name: &str, t_name: &str, which: &str) -> (r: bool)
    ensures
        r == is_virtual((schema_name@, t_name@), which@),
{
    let mut full: Vec<char> = Vec::new();
    push_str(&mut full, "information_schema.");
    push_str(&mut full, which);
    let t = chars_of(t_name);
    chars_eq_ignore_case(t.as_slice(), full.as_slice()) || (chars_eq_ignore_case(chars_of(schema_name).as_slice(), chars_of("information_schema").as_slice())
        && chars_eq_ignore_case(t.as_slice(), chars_of(which).as_slice()))
}

/// Whether table `t` has no legacy description as `e` sees it: a pending delete of it inside
/// a transaction, or (with nothing pending for it) none in the database.
pub open spec fn table_missing(e: Executor, db: Database, t: Seq<char>) -> bool {
    let k = encode_utf8("__schema__:"@ + t);
    if e.in_tx() && e.pending_map().dom().contains(k) {
        e.pending_map()[k] is None
    } else {
        db.tree().pool().coherent() && db.tree().sorted_leaf_for(k) && db.tree().lookup(k) == Some(None::<Seq<u8>>)
    }
}

/// Whether table `t` has a legacy description as `e` sees it.
pub open spec fn table_present(e: Executor, db: Database, t: Seq<char>) -> bool {
    let k = encode_utf8("__schema__:"@ + t);
    if e.in_tx() && e.pending_map().dom().contains(k) {
        e.pending_map()[k] is Some
    } else {
        db.tree().pool().coherent() && db.tree().sorted_leaf_for(k) && (db.tree().lookup(k) matches Some(Some(_)))
    }
}

/// Writes pending in a transaction stay invisible to an executor outside one: over a database
/// that holds what an earlier one held (as an insert inside a transaction leaves it), such an
/// executor reads every key it could read before as before.
pub proof fn lemma_uncommitted_invisible(other: Executor, before: Database, after: Database, k: Seq<u8>)
    requires
        !other.in_tx(),
        Database::same_contents(before, after),
        seen_value(other, before, k) is Some,
    ensures
        seen_value(other, after, k) == seen_value(other, before, k),
{
    crate::storage::lemma_same_contents_lookup(before, after, k);
}

/// When a delete from `table` outside a transaction is owed success: a single-leaf store with
/// no index definition of the table among its keys, the table described and its rows readable
/// as `e` sees them, and the log taking a frame for each of those rows.
pub open spec fn delete_lands(e: Executor, db: Database, table: Seq<char>) -> bool {
    let t = qualified_name(table).1;
    &&& !e.in_tx()
    &&& Database::single_leaf(db)
    &&& seen_columns(e, db, t) is Some
    &&& seen_rows(e, db, t) matches Some(Ok(rows)) && (db.logging() ==> db.log().spec_lsn() + rows.len() < u64::MAX)
    &&& forall|k: Seq<u8>| #[trigger] Database::leaf_contents(db).dom().contains(k)
        ==> !crate::storage::tree::has_prefix(k, encode_utf8("__index__:"@ + t + ":"@))
}

/// Removing a key from a store keeps it free of keys under `ip` and leaves the key gone.
proof fn lemma_removed_no_index(before: Database, after: Database, ip: Seq<u8>, kk: Seq<u8>)
    requires
        Database::leaf_contents(after) == Database::leaf_contents(before).remove(kk),
        forall|k: Seq<u8>| #[trigger] Database::leaf_contents(before).dom().contains(k) ==> !crate::storage::tree::has_prefix(k, ip),
    ensures
        forall|k: Seq<u8>| #[trigger] Database::leaf_contents(after).dom().contains(k) ==> !crate::storage::tree::has_prefix(k, ip),
        !Database::leaf_contents(after).dom().contains(kk),
{
    assert forall|k: Seq<u8>| #[trigger] Database::leaf_contents(after).dom().contains(k) implies !crate::storage::tree::has_prefix(k, ip) by {
        assert(Database::leaf_contents(before).dom().contains(k));
    }
}

/// A single-leaf store none of whose keys is an index definition of `t` lists no index of it.
proof fn lemma_no_index_defs(db: Database, t: Seq<char>)
    requires
        Database::single_leaf(db),
        forall|k: Seq<u8>| #[trigger] Database::leaf_contents(db).dom().contains(k)
            ==> !crate::storage::tree::has_prefix(k, encode_utf8("__index__:"@ + t + ":"@)),
    ensures
        index_defs(db, t) == Some(Seq::<Seq<char>>::empty()),
{
    assert forall|k: Seq<u8>| #[trigger] crate::storage::ordered::records_map(Database::root_records(db)).dom().contains(k)
        implies !crate::storage::tree::has_prefix(k, encode_utf8("__index__:"@ + t + ":"@)) by {
        assert(Database::leaf_contents(db).dom().contains(k));
    }
    crate::storage::tree::lemma_leaf_root_scan_empty(db.tree(), Database::root_records(db), encode_utf8("__index__:"@ + t + ":"@));
    assert(Seq::<PairView>::empty().map_values(|p: PairView| utf8_lossy(p.1)) =~= Seq::<Seq<char>>::empty());
}

/// When an insert of `values` into `table` outside a transaction is owed success and lands in
/// the store: the log below its limit, a single-leaf store, the table described as `e` sees it
/// (its described column count matched when no catalog schema is given, the row fitting the
/// schema when one is), some values, room in the leaf for the encoded row, and no index
/// definition of the table among the keys, the new one included.
pub open spec fn insert_lands(e: Executor, db: Database, table: Seq<char>, values: Seq<String>, catalog: Option<&TableSchema>) -> bool {
    let t = qualified_name(table).1;
    let key = encode_utf8(t + ":"@ + values[0]@);
    let row = encoded_row(strings_view(values), 1, 0);
    &&& !e.in_tx()
    &&& !(db.logging() && db.log().spec_lsn() == u64::MAX)
    &&& Database::single_leaf(db)
    &&& values.len() > 0
    &&& seen_columns(e, db, t) is Some
    &&& match catalog {
        Some(sch) => row_fits(sch.columns@, strings_view(values)),
        None => seen_columns(e, db, t)->0.len() == values.len(),
    }
    &&& Database::leaf_room(db, key, row)
    &&& forall|k: Seq<u8>| #[trigger] Database::leaf_contents(db).insert(key, row).dom().contains(k)
        ==> !crate::storage::tree::has_prefix(k, encode_utf8("__index__:"@ + t + ":"@))
}

/// The one row of `rows` keyed `pk`, when exactly one is.
pub open spec fn sole_match(rows: Seq<RowView>, pk: Seq<char>) -> Option<int> {
    if exists|j: int| 0 <= j < rows.len() && crate::sql::volcano::cell_matches(rows[j], 0, pk)
        && forall|j2: int| 0 <= j2 < rows.len() && #[trigger] crate::sql::volcano::cell_matches(rows[j2], 0, pk) ==> j2 == j {
        Some(choose|j: int| 0 <= j < rows.len() && crate::sql::volcano::cell_matches(rows[j], 0, pk)
            && forall|j2: int| 0 <= j2 < rows.len() && #[trigger] crate::sql::volcano::cell_matches(rows[j2], 0, pk) ==> j2 == j)
    } else {
        None
    }
}

/// Whether an `UPDATE` of `column` to `value` on the row of table `t` keyed `pk` lands in a
/// database that is a single leaf, outside a transaction: the log is not full, the table's
/// columns and rows are read cleanly, `column` is one of them and no index is on it, the new
/// value fits the catalog's description (when there is one), exactly one row is keyed `pk`
/// and has the column, and the leaf has room for its new encoding.
#[verifier::opaque]
pub open spec fn update_lands(
    e: Executor,
    db: Database,
    t: Seq<char>,
    column: Seq<char>,
    value: Seq<char>,
    pk: Seq<char>,
    catalog: Option<&TableSchema>,
) -> bool {
    &&& !e.in_tx()
    &&& !(db.logging() && db.log().spec_lsn() == u64::MAX)
    &&& Database::single_leaf(db)
    &&& seen_columns(e, db, t) matches Some(cols)
    &&& first_position(cols, column) matches Some(ci)
    &&& (catalog matches Some(sch) ==> (ci < sch.columns@.len() ==> cell_fits(sch.columns@[ci], value)))
    &&& seen_rows(e, db, t) matches Some(Ok(rows))
    &&& index_defs(db, t) matches Some(defs)
    &&& !defs.contains(column)
    &&& sole_match(rows, pk) matches Some(j)
    &&& ci < rows[j].len()
    &&& Database::leaf_room(db, encode_utf8(t + ":"@ + pk), encoded_row(rows[j].update(ci, value), 1, 0))
}

/// The row encoding that such an update stores.
pub open spec fn updated_row(e: Executor, db: Database, t: Seq<char>, column: Seq<char>, value: Seq<char>, pk: Seq<char>) -> Seq<u8> {
    let rows = seen_rows(e, db, t)->0->Ok_0;
    let ci = first_position(seen_columns(e, db, t)->0, column)->0;
    encoded_row(rows[sole_match(rows, pk)->0].update(ci, value), 1, 0)
}

proof fn lemma_update_lands(
    e: Executor,
    db: Database,
    t: Seq<char>,
    column: Seq<char>,
    value: Seq<char>,
    pk: Seq<char>,
    catalog: Option<&TableSchema>,
)
    requires
        update_lands(e, db, t, column, value, pk, catalog),
    ensures
        !e.in_tx(),
        !(db.logging() && db.log().spec_lsn() == u64::MAX),
        Database::single_leaf(db),
        seen_columns(e, db, t) is Some,
        first_position(seen_columns(e, db, t)->0, column) is Some,
        catalog matches Some(sch) ==> (first_position(seen_columns(e, db, t)->0, column)->0 < sch.columns@.len()
            ==> cell_fits(sch.columns@[first_position(seen_columns(e, db, t)->0, column)->0], value)),
        seen_rows(e, db, t) matches Some(Ok(_)),
        index_defs(db, t) matches Some(defs) && !defs.contains(column),
        ({
            let rows = seen_rows(e, db, t)->0->Ok_0;
            let ci = first_position(seen_columns(e, db, t)->0, column)->0;
            &&& sole_match(rows, pk) matches Some(j)
            &&& 0 <= j < rows.len()
            &&& crate::sql::volcano::cell_matches(rows[j], 0, pk)
            &&& forall|j2: int| 0 <= j2 < rows.len() && #[trigger] crate::sql::volcano::cell_matches(rows[j2], 0, pk) ==> j2 == j
            &&& ci < rows[j].len()
            &&& Database::leaf_room(db, encode_utf8(t + ":"@ + pk), updated_row(e, db, t, column, value, pk))
        }),
{
    reveal(update_lands);
    let rows = seen_rows(e, db, t)->0->Ok_0;
    let j = sole_match(rows, pk)->0;
    assert(0 <= j < rows.len() && crate::sql::volcano::cell_matches(rows[j], 0, pk)
        && forall|j2: int| 0 <= j2 < rows.len() && #[trigger] crate::sql::volcano::cell_matches(rows[j2], 0, pk) ==> j2 == j);
}

/// Whether an `UPDATE` of `column` to `value` on the rows of table `t` keyed `pk` goes
/// through inside a transaction: the table's columns and rows are read cleanly, `column` is
/// one of them, the new value fits the catalog's description of it (when there is one),
/// and the rows to rewrite can be rewritten (see `rows_rewritable`).
#[verifier::opaque]
pub open spec fn update_goes(
    e: Executor,
    db: Database,
    t: Seq<char>,
    column: Seq<char>,
    value: Seq<char>,
    pk: Seq<char>,
    catalog: Option<&TableSchema>,
) -> bool {
    &&& e.in_tx()
    &&& seen_columns(e, db, t) matches Some(cols)
    &&& first_position(cols, column) matches Some(ci)
    &&& (catalog matches Some(sch) ==> (ci < sch.columns@.len() ==> cell_fits(sch.columns@[ci], value)))
    &&& seen_rows(e, db, t) matches Some(Ok(rows))
    &&& rows_rewritable(db, t, column, value, pk, rows, ci)
}

/// Whether the rows of `rows` keyed `pk` can have their cell `ci` (of column `column`) set
/// to `value`: each has that cell, the indexes of table `t` can be listed, and when one is
/// on `column`, the entries of the old values and of the new one can be read.
#[verifier::opaque]
pub open spec fn rows_rewritable(
    db: Database,
    t: Seq<char>,
    column: Seq<char>,
    value: Seq<char>,
    pk: Seq<char>,
    rows: Seq<RowView>,
    ci: int,
) -> bool {
    &&& index_defs(db, t) matches Some(defs)
    &&& forall|j: int| 0 <= j < rows.len() && #[trigger] crate::sql::volcano::cell_matches(rows[j], 0, pk) ==> {
        &&& ci < rows[j].len()
        &&& defs.contains(column) ==> stored_value(db, sec_entry_key(t, column, rows[j][ci])) is Some
    }
    &&& defs.contains(column) ==> stored_value(db, sec_entry_key(t, column, value)) is Some
}

proof fn lemma_update_goes(
    e: Executor,
    db: Database,
    t: Seq<char>,
    column: Seq<char>,
    value: Seq<char>,
    pk: Seq<char>,
    catalog: Option<&TableSchema>,
)
    requires
        update_goes(e, db, t, column, value, pk, catalog),
    ensures
        e.in_tx(),
        seen_columns(e, db, t) is Some,
        first_position(seen_columns(e, db, t)->0, column) is Some,
        catalog matches Some(sch) ==> (first_position(seen_columns(e, db, t)->0, column)->0 < sch.columns@.len()
            ==> cell_fits(sch.columns@[first_position(seen_columns(e, db, t)->0, column)->0], value)),
        seen_rows(e, db, t) matches Some(Ok(_)),
        rows_rewritable(db, t, column, value, pk, seen_rows(e, db, t)->0->Ok_0, first_position(seen_columns(e, db, t)->0, column)->0),
{
    reveal(update_goes);
}

/// Rows that can be rewritten over `before` can be over a database with its contents: both
/// moves of a row's index entry are possible there, whatever is pending.
proof fn lemma_entries_movable(
    before: Database,
    after: Database,
    t: Seq<char>,
    column: Seq<char>,
    value: Seq<char>,
    pk: Seq<char>,
    rows: Seq<RowView>,
    ci: int,
    j: int,
    m: Map<Seq<u8>, Option<Seq<u8>>>,
    row_pk: Seq<char>,
)
    requires
        Database::same_contents(before, after),
        rows_rewritable(before, t, column, value, pk, rows, ci),
        0 <= j < rows.len(),
        crate::sql::volcano::cell_matches(rows[j], 0, pk),
    ensures
        ci < rows[j].len(),
        column_entry_updated(m, after, t, column, rows[j][ci], row_pk, false) is Some,
        column_entry_updated(m, after, t, column, value, row_pk, true) is Some,
{
    reveal(rows_rewritable);
    crate::storage::lemma_same_contents_scan(before, after, encode_utf8("__index__:"@ + t + ":"@));
    if index_defs(before, t)->0.contains(column) {
        crate::storage::lemma_same_contents_lookup(before, after, sec_entry_key(t, column, rows[j][ci]));
        crate::storage::lemma_same_contents_lookup(before, after, sec_entry_key(t, column, value));
    }
}

proof fn lemma_row_rewritable(
    db: Database,
    t: Seq<char>,
    column: Seq<char>,
    value: Seq<char>,
    pk: Seq<char>,
    rows: Seq<RowView>,
    ci: int,
    j: int,
)
    requires
        rows_rewritable(db, t, column, value, pk, rows, ci),
        0 <= j < rows.len(),
        crate::sql::volcano::cell_matches(rows[j], 0, pk),
    ensures
        index_defs(db, t) is Some,
        ci < rows[j].len(),
        index_defs(db, t)->0.contains(column) ==> stored_value(db, sec_entry_key(t, column, rows[j][ci])) is Some
            && stored_value(db, sec_entry_key(t, column, value)) is Some,
{
    reveal(rows_rewritable);
}

/// Whether `CREATE INDEX index_name ON table(columns)` lands in a database that is a single
/// leaf, on a table with no stored rows: the log is not full, the table's columns are read
/// cleanly and name every one of `columns`, the index is not registered yet, the leaf has
/// room for its description, and no key (the description's among them) falls under the
/// table's row prefix.
#[verifier::opaque]
pub open spec fn index_lands(e: Executor, db: Database, table: Seq<char>, index_name: Seq<char>, columns: Seq<String>) -> bool {
    let t = qualified_name(table).1;
    let key = encode_utf8("__index__:"@ + t + ":"@ + index_name);
    let desc = encode_utf8(join(strings_view(columns), ","@));
    &&& !(db.logging() && db.log().spec_lsn() == u64::MAX)
    &&& Database::single_leaf(db)
    &&& seen_columns(e, db, t) matches Some(cols)
    &&& forall|j: int| 0 <= j < columns.len() ==> first_position(cols, (#[trigger] columns[j])@) is Some
    &&& !Database::leaf_contents(db).dom().contains(key)
    &&& Database::leaf_room(db, key, desc)
    &&& forall|k: Seq<u8>| #[trigger] Database::leaf_contents(db).insert(key, desc).dom().contains(k)
        ==> !crate::storage::tree::has_prefix(k, encode_utf8(t + ":"@))
}

proof fn lemma_index_lands(e: Executor, db: Database, table: Seq<char>, index_name: Seq<char>, columns: Seq<String>)
    requires
        index_lands(e, db, table, index_name, columns),
    ensures
        !(db.logging() && db.log().spec_lsn() == u64::MAX),
        Database::single_leaf(db),
        seen_columns(e, db, qualified_name(table).1) is Some,
        forall|j: int| 0 <= j < columns.len() ==> first_position(seen_columns(e, db, qualified_name(table).1)->0, (#[trigger] columns[j])@) is Some,
        stored_value(db, encode_utf8("__index__:"@ + qualified_name(table).1 + ":"@ + index_name)) == Some(None::<Seq<u8>>),
        Database::leaf_room(db, encode_utf8("__index__:"@ + qualified_name(table).1 + ":"@ + index_name), encode_utf8(join(strings_view(columns), ","@))),
        forall|k: Seq<u8>| #[trigger] Database::leaf_contents(db).insert(
            encode_utf8("__index__:"@ + qualified_name(table).1 + ":"@ + index_name),
            encode_utf8(join(strings_view(columns), ","@)),
        ).dom().contains(k) ==> !crate::storage::tree::has_prefix(k, encode_utf8(qualified_name(table).1 + ":"@)),
{
    reveal(index_lands);
    crate::storage::tree::lemma_leaf_root_lookup(db.tree(), Database::root_records(db));
}

/// The value of `k` that the database gives: `None` when it cannot be read cleanly (stale
/// cached pages, an unsorted leaf or a corrupt page), on which nothing is promised.
pub open spec fn stored_value(db: Database, k: Seq<u8>) -> Option<Option<Seq<u8>>> {
    if db.tree().pool().coherent() && db.tree().sorted_leaf_for(k) {
        db.tree().lookup(k)
    } else {
        None
    }
}

/// The value of `k` as `e` sees it over `db`: its pending write inside a transaction, else
/// what the database gives.
pub open spec fn seen_value(e: Executor, db: Database, k: Seq<u8>) -> Option<Option<Seq<u8>>> {
    if e.in_tx() && e.pending_map().dom().contains(k) {
        Some(e.pending_map()[k])
    } else {
        stored_value(db, k)
    }
}

/// The column names of table `t` by its legacy description as `e` sees it, when there is one
/// that reads as text.
pub open spec fn seen_columns(e: Executor, db: Database, t: Seq<char>) -> Option<Seq<Seq<char>>> {
    match seen_value(e, db, encode_utf8("__schema__:"@ + t)) {
        Some(Some(b)) => if valid_utf8(b) {
            Some(col_names(decode_utf8(b)))
        } else {
            None
        },
        _ => None,
    }
}

/// The rows of table `t` as `e` sees them over `db`, decoded; `None` when the database cannot
/// be scanned cleanly.
pub open spec fn seen_rows(e: Executor, db: Database, t: Seq<char>) -> Option<Result<Seq<RowView>, RowError>> {
    if db.tree().pool().coherent() {
        match scan_result(pages_of(db.tree().pool()), db.tree().root(), encode_utf8(t + ":"@), db.tree().pool().store().len()) {
            Some(ps) => Some(rows_of(overlaid(ps, visible_writes(e.pending(), e.in_tx()), encode_utf8(t + ":"@)))),
            None => None,
        }
    } else {
        None
    }
}

/// The rows of table `t` stored under the primary keys `pks`, in that order, as `e` sees
/// them over `db` (a key with no row gives none); the first row that does not decode stops
/// the list. `None` when a value cannot be read cleanly.
pub open spec fn listed_rows(e: Executor, db: Database, t: Seq<char>, pks: Seq<Seq<char>>) -> Option<Result<Seq<RowView>, RowError>>
    decreases pks.len(),
{
    if pks.len() == 0 {
        Some(Ok(Seq::empty()))
    } else {
        match listed_rows(e, db, t, pks.drop_last()) {
            Some(Ok(rows)) => match seen_value(e, db, encode_utf8(t + ":"@ + pks.last())) {
                Some(Some(b)) => match decoded_row(b) {
                    Ok(row) => Some(Ok(rows.push(row))),
                    Err(x) => Some(Err(x)),
                },
                Some(None) => Some(Ok(rows)),
                None => None,
            },
            other => other,
        }
    }
}

/// A list that failed, or could not be read, stays so as keys are added.
proof fn lemma_listed_rows_failed(e: Executor, db: Database, t: Seq<char>, pks: Seq<Seq<char>>, i: int)
    requires
        0 <= i <= pks.len(),
        !(listed_rows(e, db, t, pks.take(i)) matches Some(Ok(_))),
    ensures
        listed_rows(e, db, t, pks) == listed_rows(e, db, t, pks.take(i)),
    decreases pks.len() - i,
{
    if i < pks.len() {
        assert(pks.take(i + 1).drop_last() =~= pks.take(i));
        lemma_listed_rows_failed(e, db, t, pks, i + 1);
    } else {
        assert(pks.take(i) =~= pks);
    }
}

/// A database that holds what another held gives every value the other gave cleanly.
proof fn lemma_seen_value_kept(e: Executor, before: Database, after: Database, k: Seq<u8>)
    requires
        Database::same_contents(before, after),
        seen_value(e, before, k) is Some,
    ensures
        seen_value(e, after, k) == seen_value(e, before, k),
{
    if !(e.in_tx() && e.pending_map().dom().contains(k)) {
        crate::storage::lemma_same_contents_lookup(before, after, k);
    }
}

/// A database that holds what another held gives every table scan the other gave cleanly.
proof fn lemma_seen_rows_kept(e: Executor, before: Database, after: Database, t: Seq<char>)
    requires
        Database::same_contents(before, after),
        seen_rows(e, before, t) is Some,
    ensures
        seen_rows(e, after, t) == seen_rows(e, before, t),
{
    crate::storage::lemma_same_contents_scan(before, after, encode_utf8(t + ":"@));
}

/// A database that holds what another held lists every row the other listed cleanly.
proof fn lemma_listed_rows_kept(e: Executor, before: Database, after: Database, t: Seq<char>, pks: Seq<Seq<char>>)
    requires
        Database::same_contents(before, after),
        listed_rows(e, before, t, pks) is Some,
    ensures
        listed_rows(e, after, t, pks) == listed_rows(e, before, t, pks),
    decreases pks.len(),
{
    if pks.len() > 0 {
        lemma_listed_rows_kept(e, before, after, t, pks.drop_last());
        if listed_rows(e, before, t, pks.drop_last()) matches Some(Ok(_)) {
            lemma_seen_value_kept(e, before, after, encode_utf8(t + ":"@ + pks.last()));
        }
    }
}

/// A database that holds what another held gives the same `SELECT` rows wherever the other
/// gave them cleanly, and the same index entry and table rows.
proof fn lemma_selected_rows_kept(
    e: Executor,
    before: Database,
    after: Database,
    t: Seq<char>,
    cols: Seq<Seq<char>>,
    w: Option<(Seq<char>, Seq<char>)>,
)
    requires
        Database::same_contents(before, after),
    ensures
        selected_rows(e, before, t, cols, w) is Some ==> selected_rows(e, after, t, cols, w) == selected_rows(e, before, t, cols, w),
        seen_rows(e, before, t) is Some ==> seen_rows(e, after, t) == seen_rows(e, before, t),
        match w {
            Some((c, v)) => stored_value(before, sec_entry_key(t, c, v)) is Some ==> stored_value(after, sec_entry_key(t, c, v))
                == stored_value(before, sec_entry_key(t, c, v)),
            None => true,
        },
{
    if seen_rows(e, before, t) is Some {
        lemma_seen_rows_kept(e, before, after, t);
    }
    match w {
        Some((c, v)) => {
            let ek = sec_entry_key(t, c, v);
            if stored_value(before, ek) is Some {
                crate::storage::lemma_same_contents_lookup(before, after, ek);
                match stored_value(before, ek) {
                    Some(Some(b)) => {
                        let pks = split_char(utf8_lossy(b), pk_sep());
                        if listed_rows(e, before, t, pks) is Some {
                            lemma_listed_rows_kept(e, before, after, t, pks);
                        }
                    },
                    _ => {},
                }
            }
        },
        None => {},
    }
}

/// The `WHERE` clause of a `SELECT` as text.
pub open spec fn where_view(w: Option<(String, String)>) -> Option<(Seq<char>, Seq<char>)> {
    match w {
        Some((c, v)) => Some((c@, v@)),
        None => None,
    }
}

/// The rows a `SELECT` of table `t` (whose columns are `cols`) keeps before ordering, as `e`
/// sees them over `db`: those that the secondary index entry of the `WHERE` value lists when
/// there is one, else the table's rows, filtered on the `WHERE` column when there is one. A
/// `WHERE` column that is not a column of the table gives `None` (the statement is refused),
/// as does a database that cannot be read cleanly.
pub open spec fn selected_rows(
    e: Executor,
    db: Database,
    t: Seq<char>,
    cols: Seq<Seq<char>>,
    where_clause: Option<(Seq<char>, Seq<char>)>,
) -> Option<Result<Seq<RowView>, RowError>> {
    match where_clause {
        None => seen_rows(e, db, t),
        Some((c, v)) => match stored_value(db, sec_entry_key(t, c, v)) {
            Some(Some(b)) => listed_rows(e, db, t, split_char(utf8_lossy(b), pk_sep())),
            Some(None) => match seen_rows(e, db, t) {
                Some(Ok(rows)) => match first_position(cols, c) {
                    Some(i) => Some(Ok(crate::sql::volcano::matching(rows, i, v))),
                    None => None,
                },
                other => other,
            },
            None => None,
        },
    }
}

/// What a `SELECT` leaves to its caller.
pub enum SelectReply {
    /// The finished result table.
    Table(String),
    /// `information_schema.columns`, answered from the catalog's decoded descriptions.
    ColumnsCatalog,
    /// Rows to sort by the cell at `sort_col` (descending when `descending`) and then to
    /// finish with `finish_select`.
    Sort { col_names: Vec<String>, rows: Vec<Vec<String>>, sort_col: usize, descending: bool, limit_offset: Option<(usize, usize)> },
}

/// The `ORDER BY` clause of a `SELECT` as text.
pub open spec fn order_view(o: Option<(String, bool)>) -> Option<(Seq<char>, bool)> {
    match o {
        Some((c, d)) => Some((c@, d)),
        None => None,
    }
}

/// Whether `r` is the answer to a `SELECT` of stored table `t`, as `e` sees it over `db`: the
/// rows that `selected_rows` keeps, handed back to be sorted with `ORDER BY` (whose column
/// must be the table's), else finished with `LIMIT` and `OFFSET` as a table; a row that does
/// not decode is an error, and so is a `WHERE` column that is not the table's when no index
/// entry answers. Nothing is said where the database cannot be read cleanly.
#[verifier::opaque]
pub open spec fn select_answer(
    e: Executor,
    db: Database,
    t: Seq<char>,
    where_clause: Option<(Seq<char>, Seq<char>)>,
    order_by: Option<(Seq<char>, bool)>,
    limit_offset: Option<(usize, usize)>,
    r: Result<SelectReply, QueryError>,
) -> bool {
    match seen_columns(e, db, t) {
        Some(cols) => match selected_rows(e, db, t, cols, where_clause) {
            Some(Err(x)) => r == Err::<SelectReply, QueryError>(QueryError::Row(x)),
            Some(Ok(rows)) => match order_by {
                None => r matches Ok(SelectReply::Table(out)) && out@ == table_output(cols, windowed(rows, limit_offset)),
                Some((c, d)) => match first_position(cols, c) {
                    Some(i) => r matches Ok(SelectReply::Sort { col_names, rows: rr, sort_col, descending, limit_offset: lo })
                        && strings_view(col_names@) == cols && rows_view(rr@) == rows && sort_col == i && descending == d
                        && lo == limit_offset,
                    None => r matches Err(QueryError::NoSuchSortColumn { column }) && column@ == c,
                },
            },
            None => match where_clause {
                Some((c, v)) => stored_value(db, sec_entry_key(t, c, v)) == Some(None::<Seq<u8>>)
                    && (seen_rows(e, db, t) matches Some(Ok(_)))
                    && first_position(cols, c) is None ==> (r matches Err(QueryError::NoSuchColumn { column }) && column@ == c),
                None => true,
            },
        },
        None => true,
    }
}

/// Whether `r` is the answer to a `SELECT ... JOIN` of stored tables `lt` and `rt` (named
/// `left_table` and `right_table` in the statement) on columns `lc` and `rc`, as `e` sees
/// them over `db`: the joined rows under the left then the right column names; a join column
/// that is not its table's is an error, and so is a row that does not decode. Nothing is said
/// where the database cannot be read cleanly.
#[verifier::opaque]
pub open spec fn join_answer(
    e: Executor,
    db: Database,
    lt: Seq<char>,
    rt: Seq<char>,
    left_table: Seq<char>,
    right_table: Seq<char>,
    lc: Seq<char>,
    rc: Seq<char>,
    is_left_join: bool,
    r: Result<String, QueryError>,
) -> bool {
    match (seen_columns(e, db, lt), seen_columns(e, db, rt)) {
        (Some(lcols), Some(rcols)) => match (first_position(lcols, lc), first_position(rcols, rc)) {
            (None, _) => r matches Err(QueryError::NoSuchColumnInTable { column, table }) && column@ == lc && table@ == left_table,
            (Some(_), None) => r matches Err(QueryError::NoSuchColumnInTable { column, table }) && column@ == rc && table@ == right_table,
            (Some(li), Some(ri)) => match seen_rows(e, db, lt) {
                Some(Err(x)) => r == Err::<String, QueryError>(QueryError::Row(x)),
                Some(Ok(lrows)) => match seen_rows(e, db, rt) {
                    Some(Err(x)) => r == Err::<String, QueryError>(QueryError::Row(x)),
                    Some(Ok(rrows)) => r matches Ok(out) && out@ == table_output(
                        lcols + rcols,
                        join_rows(lrows, rrows, li, ri, if is_left_join { JoinType::Left } else { JoinType::Inner }, rcols.len()),
                    ),
                    None => true,
                },
                None => true,
            },
        },
        _ => true,
    }
}

/// A database that holds what another held gives every description the other gave cleanly.
proof fn lemma_seen_columns_kept(e: Executor, before: Database, after: Database, t: Seq<char>)
    requires
        Database::same_contents(before, after),
        seen_columns(e, before, t) is Some,
    ensures
        seen_columns(e, after, t) == seen_columns(e, before, t),
{
    lemma_seen_value_kept(e, before, after, encode_utf8("__schema__:"@ + t));
}

/// The reply to a `SELECT` of `rows` from a table whose columns are `col_names`: rows to sort
/// with `ORDER BY` (when its column is one of the table's), else the finished table.
pub fn select_reply(col_names: Vec<String>, rows: Vec<Vec<String>>, order_by: &Option<(String, bool)>, limit_offset: Option<(usize, usize)>) -> (r: Result<SelectReply, QueryError>)
    ensures
        match *order_by {
            None => r matches Ok(SelectReply::Table(out)) && out@ == table_output(strings_view(col_names@), windowed(rows_view(rows@), limit_offset)),
            Some((c, d)) => match first_position(strings_view(col_names@), c@) {
                Some(i) => r matches Ok(SelectReply::Sort { col_names: cn, rows: rr, sort_col, descending, limit_offset: lo })
                    && cn@ == col_names@ && rr@ == rows@ && sort_col == i && descending == d && lo == limit_offset,
                None => r matches Err(QueryError::NoSuchSortColumn { column }) && column@ == c@,
            },
        },
{
    match order_by {
        Some((c, descending)) => {
            match column_position(col_names.as_slice(), c.as_str()) {
                Some(sort_col) => Ok(SelectReply::Sort { col_names, rows, sort_col, descending: *descending, limit_offset }),
                None => Err(QueryError::NoSuchSortColumn { column: c.clone() }),
            }
        },
        None => Ok(SelectReply::Table(finish_select(col_names.as_slice(), rows, limit_offset))),
    }
}

/// The reply to a statement that changed `n` rows: `1 row` or `<n> rows`, then `verb`.
pub open spec fn count_message(n: nat, verb: Seq<char>) -> Seq<char> {
    if n == 1 {
        "Query OK, 1 row "@ + verb + "."@
    } else {
        "Query OK, "@ + decimal(n) + " rows "@ + verb + "."@
    }
}

/// The one-row table an aggregate query answers with: the header `func(column)` over the
/// row `cells` joined with ` | `.
pub fn aggregate_table(func: &str, column: &str, cells: &[String]) -> (r: String)
    ensures
        r@ == "+-----------------+\n| "@ + func@ + "("@ + column@ + ")"@ + " |\n+-----------------+\n| "@
            + join(strings_view(cells@), " | "@) + " |\n+-----------------+\n1 row in set."@,
{
    let mut out: Vec<char> = Vec::new();
    push_str(&mut out, "+-----------------+\n| ");
    push_str(&mut out, func);
    push_str(&mut out, "(");
    push_str(&mut out, column);
    push_str(&mut out, ")");
    push_str(&mut out, " |\n+-----------------+\n| ");
    push_joined(&mut out, cells, " | ");
    push_str(&mut out, " |\n+-----------------+\n1 row in set.");
    string_of(out.as_slice())
}

fn count_reply(n: usize, verb: &str) -> (r: String)
    ensures
        r@ == count_message(n as nat, verb@),
{
    let mut out: Vec<char> = Vec::new();
    if n == 1 {
        push_str(&mut out, "Query OK, 1 row ");
    } else {
        push_str(&mut out, "Query OK, ");
        let d = crate::network::pgwire::decimal_exec(n);
        push_all(&mut out, d.as_slice());
        push_str(&mut out, " rows ");
    }
    push_str(&mut out, verb);
    push_str(&mut out, ".");
    string_of(out.as_slice())
}

/// The stored pairs under `<kind><table>:`.
fn scan_under(db: &mut Database, kind: &str, t_name: &str) -> (r: Result<Vec<(Vec<u8>, Vec<u8>)>, DbError>)
    requires
        old(db).wf(),
    ensures
        final(db).wf(),
        Database::same_contents(*old(db), *final(db)),
        old(db).tree().pool().coherent() ==> match scan_result(
            pages_of(old(db).tree().pool()),
            old(db).tree().root(),
            encode_utf8(kind@ + t_name@ + ":"@),
            old(db).tree().pool().store().len(),
        ) {
            Some(ps) => r matches Ok(v) && pairs_view(v@) == ps,
            None => r is Err,
        },
        crate::storage::log_full_only_at_limit(r, *final(db)),
{
    let mut p: Vec<char> = Vec::new();
    push_str(&mut p, kind);
    push_str(&mut p, t_name);
    push_str(&mut p, ":");
    let prefix = chars_bytes(p.as_slice());
    db.scan_prefix(prefix.as_slice())
}

/// Deletes the keys of `pairs` from the database, in order.
/// Removing the first `i + 1` keys is removing the first `i`, then the next.
proof fn lemma_remove_keys_step(m: Map<Seq<u8>, Seq<u8>>, keys: Seq<Seq<u8>>, i: int)
    requires
        0 <= i < keys.len(),
    ensures
        m.remove_keys(keys.take(i + 1).to_set()) == m.remove_keys(keys.take(i).to_set()).remove(keys[i]),
{
    assert(keys.take(i + 1).to_set() =~= keys.take(i).to_set().insert(keys[i])) by {
        assert(keys.take(i + 1) =~= keys.take(i).push(keys[i]));
        keys.take(i).lemma_push_to_set_commute(keys[i]);
    }
    assert(m.remove_keys(keys.take(i + 1).to_set()) =~= m.remove_keys(keys.take(i).to_set()).remove(keys[i]));
}

fn delete_keys(db: &mut Database, pairs: &Vec<(Vec<u8>, Vec<u8>)>) -> (r: Result<(), DbError>)
    requires
        old(db).wf(),
    ensures
        final(db).wf(),
        old(db).log().spec_pending().is_prefix_of(final(db).log().spec_pending()),
        final(db).logging() == old(db).logging(),
        !old(db).logging() ==> final(db).log() == old(db).log(),
        old(db).logging() && r is Ok ==> final(db).log().spec_lsn() == old(db).log().spec_lsn() + pairs@.len()
            && final(db).log().spec_pending() == old(db).log().spec_pending() + write_frames(
            deletes_of(pairs_view(pairs@)),
            0,
            old(db).log().spec_lsn() + 1,
        ),
        crate::storage::log_full_only_at_limit(r, *final(db)),
        Database::single_leaf(*old(db)) && (old(db).logging() ==> old(db).log().spec_lsn() + pairs@.len() <= u64::MAX)
            ==> r is Ok && Database::single_leaf(*final(db)) && Database::leaf_contents(*final(db))
                == Database::leaf_contents(*old(db)).remove_keys(crate::sql::catalog::pair_keys(pairs_view(pairs@)).to_set()),
{
    let ghost ws = deletes_of(pairs_view(pairs@));
    let ghost keys = crate::sql::catalog::pair_keys(pairs_view(pairs@));
    let ghost lf = Database::single_leaf(*old(db)) && (old(db).logging() ==> old(db).log().spec_lsn() + pairs@.len() <= u64::MAX);
    proof {
        assert(Database::leaf_contents(*old(db)).remove_keys(keys.take(0).to_set()) =~= Database::leaf_contents(*old(db)));
    }
    let ghost p0 = old(db).log().spec_pending();
    let ghost l0 = old(db).log().spec_lsn();
    let mut i: usize = 0;
    proof {
        assert(ws.take(0) =~= Seq::<WriteView>::empty());
        assert(p0 + write_frames(ws.take(0), 0, l0 + 1) =~= p0);
    }
    while i < pairs.len()
        invariant
            db.wf(),
            old(db).log().spec_pending().is_prefix_of(db.log().spec_pending()),
            db.logging() == old(db).logging(),
            i <= pairs@.len(),
            ws == deletes_of(pairs_view(pairs@)),
            p0 == old(db).log().spec_pending(),
            l0 == old(db).log().spec_lsn(),
            !old(db).logging() ==> db.log() == old(db).log(),
            old(db).logging() ==> db.log().spec_lsn() == l0 + i && db.log().spec_pending() == p0 + write_frames(ws.take(i as int), 0, l0 + 1),
            keys == crate::sql::catalog::pair_keys(pairs_view(pairs@)),
            lf == (Database::single_leaf(*old(db)) && (old(db).logging() ==> l0 + pairs@.len() <= u64::MAX)),
            lf ==> Database::single_leaf(*db) && Database::leaf_contents(*db) == Database::leaf_contents(*old(db)).remove_keys(keys.take(i as int).to_set()),
        decreases pairs@.len() - i,
    {
        let ghost before = *db;
        match db.delete(pairs[i].0.as_slice()) {
            Ok(()) => {},
            Err(e) => {
                return Err(e);
            },
        }
        proof {
            if lf {
                assert(keys[i as int] == pairs@[i as int].0@);
                lemma_remove_keys_step(Database::leaf_contents(*old(db)), keys, i as int);
            }
            lemma_write_frames_step(ws, i as int, 0, l0 + 1);
            assert(ws[i as int] == (pairs@[i as int].0@, None::<Seq<u8>>));
            assert(p0 + write_frames(ws.take(i + 1), 0, l0 + 1) =~= p0 + write_frames(ws.take(i as int), 0, l0 + 1)
                + crate::wal::frame_bytes(write_frame(ws[i as int], 0, l0 + 1 + i)));
        }
        i += 1;
    }
    proof {
        assert(ws.take(i as int) =~= ws);
        assert(keys.take(i as int) =~= keys);
    }
    Ok(())
}

/// Deletes of the keys of `ps`, in order.
pub open spec fn deletes_of(ps: Seq<PairView>) -> Seq<WriteView> {
    ps.map_values(|p: PairView| (p.0, None::<Seq<u8>>))
}

/// The aggregate a `SELECT` names: `COUNT`, or `SUM` or `AVG` of `column`.
pub open spec fn aggregate_of(func: Seq<char>, column: Seq<char>, names: Seq<Seq<char>>) -> Option<Option<AggregateFunc>> {
    if func == "COUNT"@ {
        Some(Some(AggregateFunc::Count))
    } else if func == "SUM"@ || func == "AVG"@ {
        match first_position(names, column) {
            Some(i) => Some(Some(if func == "SUM"@ { AggregateFunc::Sum(i as usize) } else { AggregateFunc::Avg(i as usize) })),
            None => Some(None),
        }
    } else {
        None
    }
}

/// Resolves an aggregate against the table's column names.
pub fn resolve_aggregate(func: &str, column: &str, col_names: &[String]) -> (r: Result<AggregateFunc, QueryError>)
    ensures
        match aggregate_of(func@, column@, strings_view(col_names@)) {
            Some(Some(a)) => r == Ok::<AggregateFunc, QueryError>(a),
            Some(None) => r matches Err(QueryError::NoSuchColumn { column: c }) && c@ == column@,
            None => r matches Err(QueryError::UnsupportedAggregate { func: f }) && f@ == func@,
        },
{
    let f = chars_of(func);
    proof {
        reveal_strlit("COUNT");
        reveal_strlit("SUM");
        reveal_strlit("AVG");
    }
    if chars_eq(f.as_slice(), chars_of("COUNT").as_slice()) {
        return Ok(AggregateFunc::Count);
    }
    let is_sum = chars_eq(f.as_slice(), chars_of("SUM").as_slice());
    let is_avg = chars_eq(f.as_slice(), chars_of("AVG").as_slice());
    if is_sum || is_avg {
        match column_position(col_names, column) {
            Some(i) => {
                if is_sum {
                    Ok(AggregateFunc::Sum(i))
                } else {
                    Ok(AggregateFunc::Avg(i))
                }
            },
            None => Err(QueryError::NoSuchColumn { column: text(column) }),
        }
    } else {
        Err(QueryError::UnsupportedAggregate { func: text(func) })
    }
}

/// The reply to `CREATE TABLE`: the table's name, qualified unless in the default schema.
pub open spec fn created_message(name: (Seq<char>, Seq<char>)) -> Seq<char> {
    if name.0 == "public"@ {
        "Query OK, table '"@ + name.1 + "' created."@
    } else {
        "Query OK, table '"@ + name.0 + "."@ + name.1 + "' created."@
    }
}

/// Why a statement failed.
#[derive(Debug, Clone, PartialEq)]
pub enum QueryError {
    /// `BEGIN` inside a transaction.
    TransactionInProgress,
    /// `COMMIT` or `ROLLBACK` outside a transaction.
    NoTransaction,
    /// The table exists already.
    TableExists { name: String },
    /// The table does not exist.
    NoSuchTable { name: String },
    /// The index exists already.
    IndexExists { name: String },
    /// A column named in the statement is not a column of the table.
    NoSuchColumn { column: String },
    /// A column of a new index is not a column of the table.
    NoSuchColumnInTable { column: String, table: String },
    /// A row with the wrong number of values.
    ColumnCount { expected: usize, got: usize },
    /// A row without values.
    NoValues,
    /// `NULL` for a column that does not take it.
    NotNull { column: String },
    /// A value that does not parse as its column's type.
    InvalidValue { raw: String, data_type: DataType },
    /// An aggregate function other than `COUNT`, `SUM` and `AVG`.
    UnsupportedAggregate { func: String },
    /// The `ORDER BY` column is not a column of the table.
    NoSuchSortColumn { column: String },
    /// A stored row shorter than the updated column's position.
    CorruptRowLength,
    /// A stored table description that is not UTF-8.
    InvalidDescription,
    /// The catalog refused the statement.
    Catalog(CatalogError),
    /// A stored row could not be decoded.
    Row(RowError),
    /// The database failed.
    Db(DbError),
}

/// The name of a column type in the messages of values that do not parse as it.
pub open spec fn value_type_name(t: DataType) -> Seq<char> {
    match t {
        DataType::Int => "INT"@,
        DataType::BigInt => "BIGINT"@,
        DataType::Float => "FLOAT"@,
        DataType::Text => "TEXT"@,
        DataType::Boolean => "BOOLEAN"@,
    }
}

/// The message of a failed statement, where it is fixed text; `None` for the failures of
/// the layers below (a stored row, the database, a catalog failure other than an existing
/// schema), which are reported by their own description.
pub open spec fn query_message(e: QueryError) -> Option<Seq<char>> {
    match e {
        QueryError::TransactionInProgress => Some("Transaction already in progress"@),
        QueryError::NoTransaction => Some("No transaction in progress"@),
        QueryError::TableExists { name } => Some("Table '"@ + name@ + "' already exists"@),
        QueryError::NoSuchTable { name } => Some("Table '"@ + name@ + "' does not exist"@),
        QueryError::IndexExists { name } => Some("Index '"@ + name@ + "' already exists"@),
        QueryError::NoSuchColumn { column } => Some("Column '"@ + column@ + "' not found"@),
        QueryError::NoSuchColumnInTable { column, table } => Some("Column '"@ + column@ + "' not found in table '"@ + table@ + "'"@),
        QueryError::ColumnCount { expected, got } => Some(
            "Column count mismatch: expected "@ + decimal(expected as nat) + ", got "@ + decimal(got as nat),
        ),
        QueryError::NoValues => Some("No values provided for insertion"@),
        QueryError::NotNull { column } => Some("Constraint Violation: Column '"@ + column@ + "' cannot be NULL"@),
        QueryError::InvalidValue { raw, data_type } => Some("Cannot parse '"@ + raw@ + "' as "@ + value_type_name(data_type)),
        QueryError::UnsupportedAggregate { func } => Some("Unsupported aggregate function "@ + func@),
        QueryError::NoSuchSortColumn { column } => Some("Column '"@ + column@ + "' not found for ORDER BY"@),
        QueryError::CorruptRowLength => Some("Corrupted row length"@),
        QueryError::InvalidDescription => Some("invalid utf-8 sequence in table description"@),
        QueryError::Catalog(CatalogError::SchemaExists { name }) => Some("Schema '"@ + name@ + "' already exists"@),
        _ => None,
    }
}

impl QueryError {
    /// The message of the failure, where it is fixed text (see `query_message`).
    pub fn message(&self) -> (r: Option<String>)
        ensures
            match query_message(*self) {
                Some(m) => r matches Some(s) && s@ == m,
                None => r is None,
            },
    {
        let mut out: Vec<char> = Vec::new();
        match self {
            QueryError::TransactionInProgress => {
                push_str(&mut out, "Transaction already in progress");
            },
            QueryError::NoTransaction => {
                push_str(&mut out, "No transaction in progress");
            },
            QueryError::TableExists { name } => {
                push_str(&mut out, "Table '");
                push_str(&mut out, name.as_str());
                push_str(&mut out, "' already exists");
            },
            QueryError::NoSuchTable { name } => {
                push_str(&mut out, "Table '");
                push_str(&mut out, name.as_str());
                push_str(&mut out, "' does not exist");
            },
            QueryError::IndexExists { name } => {
                push_str(&mut out, "Index '");
                push_str(&mut out, name.as_str());
                push_str(&mut out, "' already exists");
            },
            QueryError::NoSuchColumn { column } => {
                push_str(&mut out, "Column '");
                push_str(&mut out, column.as_str());
                push_str(&mut out, "' not found");
            },
            QueryError::NoSuchColumnInTable { column, table } => {
                push_str(&mut out, "Column '");
                push_str(&mut out, column.as_str());
                push_str(&mut out, "' not found in table '");
                push_str(&mut out, table.as_str());
                push_str(&mut out, "'");
            },
            QueryError::ColumnCount { expected, got } => {
                push_str(&mut out, "Column count mismatch: expected ");
                let e = crate::network::pgwire::decimal_exec(*expected);
                push_all(&mut out, e.as_slice());
                push_str(&mut out, ", got ");
                let g = crate::network::pgwire::decimal_exec(*got);
                push_all(&mut out, g.as_slice());
            },
            QueryError::NoValues => {
                push_str(&mut out, "No values provided for insertion");
            },
            QueryError::NotNull { column } => {
                push_str(&mut out, "Constraint Violation: Column '");
                push_str(&mut out, column.as_str());
                push_str(&mut out, "' cannot be NULL");
            },
            QueryError::InvalidValue { raw, data_type } => {
                push_str(&mut out, "Cannot parse '");
                push_str(&mut out, raw.as_str());
                push_str(&mut out, "' as ");
                match data_type {
                    DataType::Int => push_str(&mut out, "INT"),
                    DataType::BigInt => push_str(&mut out, "BIGINT"),
                    DataType::Float => push_str(&mut out, "FLOAT"),
                    DataType::Text => push_str(&mut out, "TEXT"),
                    DataType::Boolean => push_str(&mut out, "BOOLEAN"),
                }
            },
            QueryError::UnsupportedAggregate { func } => {
                push_str(&mut out, "Unsupported aggregate function ");
                push_str(&mut out, func.as_str());
            },
            QueryError::NoSuchSortColumn { column } => {
                push_str(&mut out, "Column '");
                push_str(&mut out, column.as_str());
                push_str(&mut out, "' not found for ORDER BY");
            },
            QueryError::CorruptRowLength => {
                push_str(&mut out, "Corrupted row length");
            },
            QueryError::InvalidDescription => {
                push_str(&mut out, "invalid utf-8 sequence in table description");
            },
            QueryError::Catalog(CatalogError::SchemaExists { name }) => {
                push_str(&mut out, "Schema '");
                push_str(&mut out, name.as_str());
                push_str(&mut out, "' already exists");
            },
            _ => {
                return None;
            },
        }
        Some(string_of(out.as_slice()))
    }
}

/// Hands out transaction ids, one after another from 1: each call gives the next id, and
/// ids go up by one at each call (wrapping past the largest `u64`).
pub struct TxIdCounter {
    next: u64,
}

impl TxIdCounter {
    /// The id that the next call hands out.
    pub closed spec fn spec_next(&self) -> u64 {
        self.next
    }

    /// A counter whose first id is 1.
    pub fn new() -> (c: TxIdCounter)
        ensures
            c.spec_next() == 1,
    {
        TxIdCounter { next: 1 }
    }

    /// Hands out the next transaction id.
    pub fn next_id(&mut self) -> (id: u64)
        ensures
            id == old(self).spec_next(),
            final(self).spec_next() == (if old(self).spec_next() == u64::MAX { 0 } else { old(self).spec_next() + 1 }),
            old(self).spec_next() < u64::MAX ==> final(self).spec_next() > id,
    {
        let id = self.next;
        self.next = self.next.wrapping_add(1);
        id
    }
}

/// A copy of a string literal.
fn text(s: &str) -> (r: String)
    ensures
        r@ == s@,
{
    string_of(chars_of(s).as_slice())
}

/// The log frame of a pending write.
pub open spec fn write_frame(w: WriteView, tx_id: u64, lsn: int) -> crate::wal::FrameView {
    match w.1 {
        Some(v) => crate::wal::FrameView { lsn: lsn as u64, tx_id, op: 1, payload: crate::wal::put_payload(w.0, v) },
        None => crate::wal::FrameView { lsn: lsn as u64, tx_id, op: 2, payload: crate::wal::delete_payload(w.0) },
    }
}

/// The log frames of a transaction's pending writes, in key order, numbered from `first_lsn`.
pub open spec fn write_frames(ws: Seq<WriteView>, tx_id: u64, first_lsn: int) -> Seq<u8>
    decreases ws.len(),
{
    if ws.len() == 0 {
        Seq::empty()
    } else {
        write_frames(ws.drop_last(), tx_id, first_lsn) + crate::wal::frame_bytes(
            write_frame(ws.last(), tx_id, first_lsn + ws.len() - 1),
        )
    }
}

proof fn lemma_write_frames_step(ws: Seq<WriteView>, i: int, tx_id: u64, first_lsn: int)
    requires
        0 <= i < ws.len(),
    ensures
        write_frames(ws.take(i + 1), tx_id, first_lsn) == write_frames(ws.take(i), tx_id, first_lsn)
            + crate::wal::frame_bytes(write_frame(ws[i], tx_id, first_lsn + i)),
{
    assert(ws.take(i + 1).drop_last() =~= ws.take(i));
    assert(ws.take(i + 1).last() == ws[i]);
}

/// What applying writes `ws` in order does to the key-value map `m`: a put sets its key, a
/// delete removes it.
pub open spec fn apply_writes(m: Map<Seq<u8>, Seq<u8>>, ws: Seq<WriteView>) -> Map<Seq<u8>, Seq<u8>>
    decreases ws.len(),
{
    if ws.len() == 0 {
        m
    } else {
        let prev = apply_writes(m, ws.drop_last());
        match ws.last().1 {
            Some(v) => prev.insert(ws.last().0, v),
            None => prev.remove(ws.last().0),
        }
    }
}

/// The leaf room that the puts among `ws` may take: a record header, the key and the value of
/// each.
pub open spec fn writes_room(ws: Seq<WriteView>) -> int
    decreases ws.len(),
{
    if ws.len() == 0 {
        0
    } else {
        writes_room(ws.drop_last()) + match ws.last().1 {
            Some(v) => 8 + ws.last().0.len() + v.len(),
            None => 0,
        }
    }
}

/// Whether every put among `ws` has a key and an inline value within their limits, the value
/// no overflow handle.
pub open spec fn writes_inline(ws: Seq<WriteView>) -> bool {
    forall|i: int| 0 <= i < ws.len() ==> ((#[trigger] ws[i]).1 matches Some(v) ==> {
        &&& ws[i].0.len() <= crate::storage::btree::MAX_KEY_SIZE
        &&& v.len() <= crate::storage::btree::MAX_INLINE_VAL_SIZE
        &&& !crate::storage::tree::is_overflow_handle(v)
    })
}

/// When a commit of pending writes `ws` over `db` is owed success and applies them all in
/// place: a single-leaf store, the log taking a frame for each write and the commit, every put
/// inline, and the leaf room for every put besides the records it holds.
pub open spec fn commit_lands(db: Database, ws: Seq<WriteView>) -> bool {
    &&& Database::single_leaf(db)
    &&& (db.logging() ==> db.log().spec_lsn() + ws.len() < u64::MAX)
    &&& writes_inline(ws)
    &&& crate::storage::btree::LEAF_HEADER_SIZE + crate::storage::btree::records_size(Database::root_records(db)) + writes_room(ws)
        <= crate::storage::pager::PAGE_SIZE
}

/// Before the `i`-th write of a commit that lands, the leaf has room for it.
proof fn lemma_commit_room(db: Database, size0: int, ws: Seq<WriteView>, i: int)
    requires
        0 <= i < ws.len(),
        writes_inline(ws),
        crate::storage::btree::LEAF_HEADER_SIZE + size0 + writes_room(ws) <= crate::storage::pager::PAGE_SIZE,
        crate::storage::btree::records_size(Database::root_records(db)) <= size0 + writes_room(ws.take(i)),
    ensures
        ws[i].1 matches Some(v) ==> Database::leaf_room(db, ws[i].0, v),
{
    lemma_writes_room_prefix(ws, i + 1);
    assert(ws.take(i + 1).drop_last() =~= ws.take(i));
    assert(ws.take(i + 1).last() == ws[i]);
}

/// After the `i`-th write of a commit, the leaf holds the first `i + 1` writes applied and
/// has taken at most their room.
proof fn lemma_commit_applied(m_i: Map<Seq<u8>, Seq<u8>>, m2: Map<Seq<u8>, Seq<u8>>, c0: Map<Seq<u8>, Seq<u8>>, ws: Seq<WriteView>, i: int, s_i: int, s2: int, size0: int)
    requires
        0 <= i < ws.len(),
        m_i == apply_writes(c0, ws.take(i)),
        m2 == apply_writes(m_i, seq![ws[i]]),
        s_i <= size0 + writes_room(ws.take(i)),
        s2 <= s_i + writes_room(seq![ws[i]]),
    ensures
        m2 == apply_writes(c0, ws.take(i + 1)),
        s2 <= size0 + writes_room(ws.take(i + 1)),
{
    let w: Seq<WriteView> = seq![ws[i]];
    assert(w.drop_last() =~= Seq::<WriteView>::empty());
    assert(w.last() == ws[i]);
    assert(apply_writes(m_i, w.drop_last()) == m_i);
    assert(writes_room(w.drop_last()) == 0);
    assert(ws.take(i + 1).drop_last() =~= ws.take(i));
    assert(ws.take(i + 1).last() == ws[i]);
}

/// Applying sorted writes to a map leaves each written key as its write says (set, or gone
/// for a delete) and every other key as it was.
pub proof fn lemma_apply_writes_at(m: Map<Seq<u8>, Seq<u8>>, ws: Seq<WriteView>, k: Seq<u8>)
    requires
        crate::sql::write_buffer::writes_sorted(ws),
    ensures
        apply_writes(m, ws).dom().contains(k) == (if crate::sql::write_buffer::writes_map(ws).dom().contains(k) {
            crate::sql::write_buffer::writes_map(ws)[k] is Some
        } else {
            m.dom().contains(k)
        }),
        apply_writes(m, ws).dom().contains(k) ==> apply_writes(m, ws)[k] == (if crate::sql::write_buffer::writes_map(ws).dom().contains(k) {
            crate::sql::write_buffer::writes_map(ws)[k]->0
        } else {
            m[k]
        }),
    decreases ws.len(),
{
    if ws.len() > 0 {
        let p = ws.drop_last();
        let n = ws.len() - 1;
        assert(crate::sql::write_buffer::writes_sorted(p)) by {
            assert forall|i: int, j: int| 0 <= i < j < p.len() implies bytes_lt(#[trigger] p[i].0, #[trigger] p[j].0) by {
                assert(p[i] == ws[i] && p[j] == ws[j]);
            }
        }
        lemma_apply_writes_at(m, p, k);
        crate::sql::write_buffer::lemma_unique_in(ws, n);
        if k != ws[n].0 {
            if crate::sql::write_buffer::writes_map(p).dom().contains(k) {
                let j = crate::sql::write_buffer::key_index(p, k);
                assert(p[j].0 == k);
                assert(ws[j] == p[j]);
                crate::sql::write_buffer::lemma_unique_in(ws, j);
                crate::sql::write_buffer::lemma_unique_in(p, j);
            }
            if crate::sql::write_buffer::writes_map(ws).dom().contains(k) {
                let j = crate::sql::write_buffer::key_index(ws, k);
                assert(ws[j].0 == k);
                assert(j < n);
                assert(p[j] == ws[j]);
            }
        }
    }
}

/// The room of a prefix of the writes is at most that of all of them.
proof fn lemma_writes_room_prefix(ws: Seq<WriteView>, j: int)
    requires
        0 <= j <= ws.len(),
    ensures
        writes_room(ws.take(j)) <= writes_room(ws),
        0 <= writes_room(ws.take(j)),
    decreases ws.len() - j,
{
    if j < ws.len() {
        assert(ws.take(j + 1).drop_last() =~= ws.take(j));
        lemma_writes_room_prefix(ws, j + 1);
        lemma_writes_room_nonneg(ws.take(j));
    } else {
        assert(ws.take(j) =~= ws);
        lemma_writes_room_nonneg(ws);
    }
}

proof fn lemma_writes_room_nonneg(ws: Seq<WriteView>)
    ensures
        0 <= writes_room(ws),
    decreases ws.len(),
{
    if ws.len() > 0 {
        lemma_writes_room_nonneg(ws.drop_last());
    }
}

/// Applies one pending write under transaction `tx_id`.
fn apply_logged_write(db: &mut Database, tx_id: u64, key: &[u8], value: &Option<Vec<u8>>) -> (r: Result<(), DbError>)
    requires
        old(db).wf(),
    ensures
        final(db).wf(),
        final(db).logging() == old(db).logging(),
        old(db).logging() && old(db).log().spec_lsn() < u64::MAX ==> final(db).log().spec_lsn() == old(db).log().spec_lsn() + 1
            && final(db).log().spec_pending() == old(db).log().spec_pending() + crate::wal::frame_bytes(
                write_frame((key@, opt_view(*value)), tx_id, old(db).log().spec_lsn() + 1),
            ),
        crate::storage::log_full_only_at_limit(r, *final(db)),
        !(old(db).logging() && old(db).log().spec_lsn() == u64::MAX) && Database::single_leaf(*old(db))
            && (opt_view(*value) matches Some(v) ==> Database::leaf_room(*old(db), key@, v)) ==> {
            &&& r is Ok
            &&& Database::single_leaf(*final(db))
            &&& Database::leaf_contents(*final(db)) == apply_writes(Database::leaf_contents(*old(db)), seq![(key@, opt_view(*value))])
            &&& crate::storage::btree::records_size(Database::root_records(*final(db))) <= crate::storage::btree::records_size(
                Database::root_records(*old(db)),
            ) + writes_room(seq![(key@, opt_view(*value))])
        },
{
    let ghost m0 = Database::leaf_contents(*old(db));
    let r = match value {
        Some(val) => db.put_with_tx(tx_id, key, val.as_slice()),
        None => db.delete_with_tx(tx_id, key),
    };
    proof {
        let w: Seq<WriteView> = seq![(key@, opt_view(*value))];
        assert(w.drop_last() =~= Seq::<WriteView>::empty());
        assert(w.last() == (key@, opt_view(*value)));
        assert(apply_writes(m0, w.drop_last()) == m0);
        assert(writes_room(w.drop_last()) == 0);
    }
    r
}

/// Executes statements against a database. Inside a transaction, writes to tables are kept
/// in a buffer of pending writes and applied on `COMMIT`; reads see them.
pub struct Executor {
    in_transaction: bool,
    current_tx_id: u64,
    write_buffer: WriteBuffer,
}

/// A query failure for a full log comes only from a database with the log enabled whose LSN
/// has reached its limit (and is left so).
pub open spec fn query_log_full_only_at_limit<T>(r: Result<T, QueryError>, db: Database) -> bool {
    r matches Err(QueryError::Db(DbError::LogFull)) ==> db.logging() && db.log().spec_lsn() == u64::MAX
}

impl Executor {
    /// Whether a transaction is open.
    pub closed spec fn in_tx(&self) -> bool {
        self.in_transaction
    }

    /// The open transaction's id (0 outside one).
    pub closed spec fn tx_id(&self) -> u64 {
        self.current_tx_id
    }

    /// The pending writes of the open transaction, in key order.
    pub closed spec fn pending(&self) -> Seq<WriteView> {
        self.write_buffer.writes()
    }

    /// The pending writes as a map from key to new value (`None` for a delete).
    pub closed spec fn pending_map(&self) -> Map<Seq<u8>, Option<Seq<u8>>> {
        self.write_buffer.view_map()
    }

    /// Outside a transaction nothing is pending.
    pub closed spec fn wf(&self) -> bool {
        &&& self.write_buffer.wf()
        &&& !self.in_transaction ==> self.write_buffer.writes().len() == 0 && self.current_tx_id == 0
    }

    /// An executor outside any transaction; registers the default schema when it is missing
    /// (a failure to do so is not reported, as the database reports it again on use).
    pub fn new(db: &mut Database) -> (e: Executor)
        requires
            old(db).wf(),
        ensures
            final(db).wf(),
            crate::sql::catalog::default_registered(*old(db), *final(db)),
            e.wf(),
            !e.in_tx(),
            e.pending() == Seq::<WriteView>::empty(),
    {
        let _ = CatalogManager::init_default_schema(db);
        Executor { in_transaction: false, current_tx_id: 0, write_buffer: WriteBuffer::new() }
    }

    /// Whether a transaction is open.
    pub fn in_transaction(&self) -> (b: bool)
        ensures
            b == self.in_tx(),
    {
        self.in_transaction
    }

    /// `BEGIN`: opens transaction `tx_id` with nothing pending and logs its start.
    pub fn begin(&mut self, db: &mut Database, tx_id: u64) -> (r: Result<String, QueryError>)
        requires
            old(self).wf(),
            old(db).wf(),
        ensures
            final(self).wf(),
            final(db).wf(),
            old(self).in_tx() ==> r == Err::<String, QueryError>(QueryError::TransactionInProgress)
                && *final(self) == *old(self) && *final(db) == *old(db),
            !old(self).in_tx() ==> final(self).in_tx() && final(self).tx_id() == tx_id
                && final(self).pending() == Seq::<WriteView>::empty(),
            !old(self).in_tx() ==> match r {
                Ok(msg) => msg@ == "Query OK, transaction started."@,
                Err(e) => old(db).logging() && old(db).log().spec_lsn() == u64::MAX
                    && e == QueryError::Db(DbError::LogFull),
            },
            !old(self).in_tx() && !(old(db).logging() && old(db).log().spec_lsn() == u64::MAX) ==> r is Ok,
            query_log_full_only_at_limit(r, *final(db)),
    {
        if self.in_transaction {
            return Err(QueryError::TransactionInProgress);
        }
        self.in_transaction = true;
        self.current_tx_id = tx_id;
        self.write_buffer.clear();
        match db.begin_tx(tx_id) {
            Ok(()) => Ok(text("Query OK, transaction started.")),
            Err(e) => Err(QueryError::Db(e)),
        }
    }

    /// `COMMIT`: applies the pending writes to the database in key order under the
    /// transaction's id, logs the commit, and closes the transaction.
    #[verifier::spinoff_prover]
    #[verifier::rlimit(100)]
    pub fn commit(&mut self, db: &mut Database) -> (r: Result<String, QueryError>)
        requires
            old(self).wf(),
            old(db).wf(),
        ensures
            final(self).wf(),
            final(db).wf(),
            !old(self).in_tx() ==> r == Err::<String, QueryError>(QueryError::NoTransaction)
                && *final(self) == *old(self) && *final(db) == *old(db),
            r is Ok ==> (r matches Ok(m) && m@ == "Query OK, transaction committed."@)
                && !final(self).in_tx(),
            r is Err ==> *final(self) == *old(self),
            old(self).in_tx() && old(db).logging() && old(db).log().spec_lsn() + old(self).pending().len() < u64::MAX
                && r is Ok ==> final(db).log().spec_pending() == old(db).log().spec_pending()
                    + write_frames(old(self).pending(), old(self).tx_id(), old(db).log().spec_lsn() + 1)
                    + crate::wal::frame_bytes(crate::wal::FrameView {
                        lsn: (old(db).log().spec_lsn() + old(self).pending().len() + 1) as u64,
                        tx_id: old(self).tx_id(),
                        op: 4,
                        payload: Seq::empty(),
                    }),
            query_log_full_only_at_limit(r, *final(db)),
            old(self).in_tx() ==> !(r matches Err(QueryError::NoTransaction)),
            old(self).in_tx() && r is Err ==> r matches Err(QueryError::Db(_)),
            old(self).in_tx() && old(self).pending().len() == 0 && !(old(db).logging() && old(db).log().spec_lsn() == u64::MAX) ==> r is Ok && !final(self).in_tx(),
            old(self).in_tx() && commit_lands(*old(db), old(self).pending()) ==> {
                &&& r is Ok
                &&& !final(self).in_tx()
                &&& Database::single_leaf(*final(db))
                &&& Database::leaf_contents(*final(db)) == apply_writes(Database::leaf_contents(*old(db)), old(self).pending())
            },
            forall|k: Seq<u8>| old(self).in_tx() && commit_lands(*old(db), old(self).pending()) && #[trigger] old(self).pending_map().dom().contains(k)
                ==> stored_value(*final(db), k) == Some(old(self).pending_map()[k]),
    {
        if !self.in_transaction {
            return Err(QueryError::NoTransaction);
        }
        let tx_id = self.current_tx_id;
        let n = self.write_buffer.len();
        let ghost ws = self.write_buffer.writes();
        let ghost lsn0 = db.log().spec_lsn() as int;
        let ghost pend0 = db.log().spec_pending();
        let ghost logging = db.logging();
        let ghost good = commit_lands(*old(db), ws);
        let ghost c0 = Database::leaf_contents(*old(db));
        let ghost size0 = crate::storage::btree::records_size(Database::root_records(*old(db)));
        proof {
            assert(ws.take(0) =~= Seq::<WriteView>::empty());
        }
        let mut i: usize = 0;
        while i < n
            invariant
                good == commit_lands(*old(db), ws),
                c0 == Database::leaf_contents(*old(db)),
                size0 == crate::storage::btree::records_size(Database::root_records(*old(db))),
                lsn0 == old(db).log().spec_lsn(),
                logging == old(db).logging(),
                good ==> Database::single_leaf(*db) && Database::leaf_contents(*db) == apply_writes(c0, ws.take(i as int))
                    && crate::storage::btree::records_size(Database::root_records(*db)) <= size0 + writes_room(ws.take(i as int)),
                db.wf(),
                *self == *old(self),
                self.in_transaction,
                self.current_tx_id == tx_id,
                self.write_buffer.wf(),
                ws == self.write_buffer.writes(),
                n == ws.len(),
                i <= n,
                db.logging() == logging,
                logging && lsn0 + n < u64::MAX ==> db.log().spec_lsn() == lsn0 + i
                    && db.log().spec_pending() == pend0 + write_frames(ws.take(i as int), tx_id, lsn0 + 1),
            decreases n - i,
        {
            let (k, v) = self.write_buffer.entry(i);
            let ghost db_i = *db;
            proof {
                lemma_write_frames_step(ws, i as int, tx_id, lsn0 + 1);
                if good {
                    lemma_commit_room(db_i, size0, ws, i as int);
                }
            }
            let res = apply_logged_write(db, tx_id, k.as_slice(), &v);
            proof {
                if good {
                    lemma_commit_applied(
                        Database::leaf_contents(db_i),
                        Database::leaf_contents(*db),
                        c0,
                        ws,
                        i as int,
                        crate::storage::btree::records_size(Database::root_records(db_i)),
                        crate::storage::btree::records_size(Database::root_records(*db)),
                        size0,
                    );
                }
            }
            match res {
                Ok(()) => {},
                Err(e) => {
                    return Err(QueryError::Db(e));
                },
            }
            i += 1;
        }
        assert(ws.take(n as int) =~= ws);
        match db.commit_tx(tx_id) {
            Ok(()) => {},
            Err(e) => {
                return Err(QueryError::Db(e));
            },
        }
        proof {
            if good {
                crate::storage::tree::lemma_leaf_root_lookup(db.tree(), Database::root_records(*db));
                assert forall|k: Seq<u8>| #[trigger] old(self).pending_map().dom().contains(k) implies stored_value(*db, k) == Some(old(self).pending_map()[k]) by {
                    lemma_apply_writes_at(c0, ws, k);
                }
            }
        }
        self.write_buffer.clear();
        self.in_transaction = false;
        self.current_tx_id = 0;
        Ok(text("Query OK, transaction committed."))
    }

    /// `CREATE SCHEMA`: registers the schema.
    pub fn create_schema(&mut self, db: &mut Database, schema_name: &str) -> (r: Result<String, QueryError>)
        requires
            old(db).wf(),
        ensures
            final(db).wf(),
            *final(self) == *old(self),
            r matches Ok(m) ==> m@ == "Query OK, schema '"@ + schema_name@ + "' created."@,
            r matches Err(e) ==> e is Catalog,
            old(db).tree().pool().coherent() && old(db).tree().sorted_leaf_for(crate::sql::catalog::schema_entry(schema_name@))
                && (old(db).tree().lookup(crate::sql::catalog::schema_entry(schema_name@)) matches Some(Some(_)))
                ==> (r matches Err(QueryError::Catalog(CatalogError::SchemaExists { name })) && name@ == schema_name@),
            query_log_full_only_at_limit(r, *final(db)),
            stored_value(*old(db), crate::sql::catalog::schema_entry(schema_name@)) == Some(None::<Seq<u8>>) ==> {
                &&& (old(db).logging() && old(db).log().spec_lsn() == u64::MAX
                    ==> r == Err::<String, QueryError>(QueryError::Catalog(CatalogError::Db(DbError::LogFull))))
                &&& (inline_put_fits(old(db).tree(), crate::sql::catalog::schema_entry(schema_name@), encode_utf8("registered"@))
                    && !(old(db).logging() && old(db).log().spec_lsn() == u64::MAX)
                    ==> r is Ok && stored_value(*final(db), crate::sql::catalog::schema_entry(schema_name@)) == Some(Some(encode_utf8("registered"@))))
            },
    {
        match CatalogManager::create_schema(db, schema_name) {
            Ok(()) => {
                let mut out: Vec<char> = Vec::new();
                push_str(&mut out, "Query OK, schema '");
                push_str(&mut out, schema_name);
                push_str(&mut out, "' created.");
                Ok(string_of(out.as_slice()))
            },
            Err(e) => Err(QueryError::Catalog(e)),
        }
    }

    /// `SHOW SCHEMAS`: the registered schemas in order, one per line.
    pub fn show_schemas(&mut self, db: &mut Database) -> (r: Result<String, QueryError>)
        requires
            old(db).wf(),
        ensures
            final(db).wf(),
            *final(self) == *old(self),
            r matches Ok(m) ==> exists|names: Seq<Seq<char>>| strictly_sorted(names)
                && m@ == listing("Schemas"@, names, " schema(s) in set."@),
            r matches Err(e) ==> e is Db,
            old(db).tree().pool().coherent() ==> match scan_result(
                pages_of(old(db).tree().pool()),
                old(db).tree().root(),
                encode_utf8(crate::sql::catalog::schema_prefix()),
                old(db).tree().pool().store().len(),
            ) {
                Some(ps) => r matches Ok(m) && exists|names: Seq<Seq<char>>| strictly_sorted(names)
                    && names.to_set() == crate::sql::catalog::schema_names(crate::sql::catalog::pair_keys(ps))
                    && m@ == listing("Schemas"@, names, " schema(s) in set."@),
                None => r is Err,
            },
            query_log_full_only_at_limit(r, *final(db)),
    {
        match CatalogManager::list_schemas(db) {
            Ok(names) => {
                let out = list_output("Schemas", names.as_slice(), " schema(s) in set.");
                assert(strictly_sorted(strings_view(names@)));
                Ok(out)
            },
            Err(e) => Err(QueryError::Db(e)),
        }
    }

    /// `SHOW TABLES`: the tables of the default schema in order, one per line.
    pub fn show_tables(&mut self, db: &mut Database) -> (r: Result<String, QueryError>)
        requires
            old(db).wf(),
        ensures
            final(db).wf(),
            *final(self) == *old(self),
            r matches Ok(m) ==> exists|names: Seq<Seq<char>>| strictly_sorted(names)
                && m@ == listing("Tables"@, names, " table(s) in set."@),
            r matches Err(e) ==> e is Db,
            query_log_full_only_at_limit(r, *final(db)),
            match scan_result(
                pages_of(old(db).tree().pool()),
                old(db).tree().root(),
                encode_utf8(crate::sql::catalog::table_prefix(crate::sql::catalog::default_schema())),
                old(db).tree().pool().store().len(),
            ) {
                None => r is Err,
                Some(ps) => match scan_result(
                    pages_of(old(db).tree().pool()),
                    old(db).tree().root(),
                    encode_utf8(crate::sql::catalog::legacy_prefix()),
                    old(db).tree().pool().store().len(),
                ) {
                    None => true,
                    Some(ls) => r matches Ok(m) && exists|names: Seq<Seq<char>>| strictly_sorted(names)
                        && names.to_set() == crate::sql::catalog::with_legacy(
                            crate::sql::catalog::catalog_tables(crate::sql::catalog::default_schema(), crate::sql::catalog::pair_keys(ps)),
                            crate::sql::catalog::pair_keys(ls),
                        )
                        && m@ == listing("Tables"@, names, " table(s) in set."@),
                },
            },
    {
        proof {
            reveal_strlit("public");
        }
        match CatalogManager::list_tables(db, DEFAULT_SCHEMA) {
            Ok(names) => {
                let out = list_output("Tables", names.as_slice(), " table(s) in set.");
                assert(strictly_sorted(strings_view(names@)));
                Ok(out)
            },
            Err(e) => Err(QueryError::Db(e)),
        }
    }

    /// The column names of table `t_name` by its legacy description, as this executor sees
    /// it (its own pending write inside a transaction); `NoSuchTable` names `table_name`.
    pub fn described_columns(&mut self, db: &mut Database, t_name: &str, table_name: &str) -> (r: Result<Vec<String>, QueryError>)
        requires
            old(db).wf(),
            old(self).wf(),
        ensures
            final(db).wf(),
            Database::same_contents(*old(db), *final(db)),
            *final(self) == *old(self),
            old(self).in_tx() && old(self).pending_map().dom().contains(encode_utf8("__schema__:"@ + t_name@)) ==> match old(self).pending_map()[encode_utf8("__schema__:"@ + t_name@)] {
                None => r matches Err(QueryError::NoSuchTable { name }) && name@ == table_name@,
                Some(b) => if valid_utf8(b) {
                    r matches Ok(cols) && strings_view(cols@) == col_names(decode_utf8(b))
                } else {
                    r == Err::<Vec<String>, QueryError>(QueryError::InvalidDescription)
                },
            },
            !(old(self).in_tx() && old(self).pending_map().dom().contains(encode_utf8("__schema__:"@ + t_name@)))
                && old(db).tree().pool().coherent() && old(db).tree().sorted_leaf_for(encode_utf8("__schema__:"@ + t_name@))
                ==> match old(db).tree().lookup(encode_utf8("__schema__:"@ + t_name@)) {
                    Some(Some(b)) => if valid_utf8(b) {
                        r matches Ok(cols) && strings_view(cols@) == col_names(decode_utf8(b))
                    } else {
                        r == Err::<Vec<String>, QueryError>(QueryError::InvalidDescription)
                    },
                    Some(None) => r matches Err(QueryError::NoSuchTable { name }) && name@ == table_name@,
                    None => r matches Err(QueryError::Db(_)),
                },
            r matches Err(e) ==> e is NoSuchTable || e is InvalidDescription || e is Db,
            query_log_full_only_at_limit(r, *final(db)),
    {
        let bytes = match get_schema_bytes(db, &self.write_buffer, self.in_transaction, t_name) {
            Ok(Some(b)) => b,
            Ok(None) => {
                return Err(QueryError::NoSuchTable { name: text(table_name) });
            },
            Err(e) => {
                return Err(QueryError::Db(e));
            },
        };
        match string_from_utf8(bytes) {
            Some(desc) => Ok(extract_col_names(desc.as_str())),
            None => Err(QueryError::InvalidDescription),
        }
    }

    /// The description of a new table (`CREATE TABLE`), after checking that it does not
    /// exist: neither by a legacy description as this executor sees it, nor, as `catalogued`
    /// says, in the catalog. Each column definition is read by `parse_column_def`.
    pub fn table_definition(&mut self, db: &mut Database, table_name: &str, columns: &[String], catalogued: bool) -> (r: Result<TableSchema, QueryError>)
        requires
            old(db).wf(),
            old(self).wf(),
        ensures
            final(db).wf(),
            *final(self) == *old(self),
            r matches Ok(ts) ==> !catalogued && (ts.schema_name@, ts.table_name@) == qualified_name(table_name@)
                && ts.columns@.len() == columns@.len()
                && forall|i: int| 0 <= i < columns@.len() ==> column_def_of(#[trigger] columns@[i]@) == (
                    ts.columns@[i].name@,
                    ts.columns@[i].data_type,
                    ts.columns@[i].is_nullable,
                    ts.columns@[i].is_primary_key,
                ),
            r matches Err(e) ==> (e matches QueryError::TableExists { name } && name@ == table_name@) || e is Db,
            catalogued ==> r is Err,
            table_present(*old(self), *old(db), qualified_name(table_name@).1)
                ==> (r matches Err(QueryError::TableExists { name }) && name@ == table_name@),
            !catalogued && table_missing(*old(self), *old(db), qualified_name(table_name@).1) ==> r is Ok,
            query_log_full_only_at_limit(r, *final(db)),
    {
        let (schema_name, t_name) = parse_qualified_table_name(table_name);
        let legacy = match get_schema_bytes(db, &self.write_buffer, self.in_transaction, t_name.as_str()) {
            Ok(b) => b,
            Err(e) => {
                return Err(QueryError::Db(e));
            },
        };
        if legacy.is_some() || catalogued {
            return Err(QueryError::TableExists { name: text(table_name) });
        }
        let mut cols: Vec<ColumnDef> = Vec::new();
        let mut i: usize = 0;
        while i < columns.len()
            invariant
                i <= columns@.len(),
                cols@.len() == i,
                forall|j: int| 0 <= j < i ==> column_def_of(#[trigger] columns@[j]@) == (
                    cols@[j].name@,
                    cols@[j].data_type,
                    cols@[j].is_nullable,
                    cols@[j].is_primary_key,
                ),
            decreases columns@.len() - i,
        {
            cols.push(parse_column_def(columns[i].as_str()));
            i += 1;
        }
        Ok(TableSchema::new(schema_name, t_name, cols))
    }

    /// `CREATE TABLE`, once the catalog holds the description: records the column
    /// definitions, joined with `,`, as the table's legacy description (pending inside a
    /// transaction, in the database outside one).
    pub fn create_table(&mut self, db: &mut Database, table_name: &str, columns: &[String]) -> (r: Result<String, QueryError>)
        requires
            old(db).wf(),
            old(self).wf(),
        ensures
            final(db).wf(),
            final(self).wf(),
            final(self).in_tx() == old(self).in_tx(),
            final(self).tx_id() == old(self).tx_id(),
            old(self).in_tx() ==> r is Ok && final(self).pending_map() == old(self).pending_map().insert(
                encode_utf8("__schema__:"@ + qualified_name(table_name@).1),
                Some(encode_utf8(join(strings_view(columns@), ","@))),
            ),
            !old(self).in_tx() ==> *final(self) == *old(self),
            r matches Ok(m) ==> m@ == created_message(qualified_name(table_name@)),
            r matches Err(e) ==> e is Db,
            old(self).in_tx() ==> *final(db) == *old(db),
            !old(self).in_tx() && old(db).logging() && old(db).log().spec_lsn() == u64::MAX
                ==> r == Err::<String, QueryError>(QueryError::Db(DbError::LogFull)) && *final(db) == *old(db),
            !old(self).in_tx() && old(db).logging() && old(db).log().spec_lsn() < u64::MAX ==> final(db).log().spec_pending()
                == old(db).log().spec_pending() + crate::wal::frame_bytes(crate::wal::FrameView {
                    lsn: (old(db).log().spec_lsn() + 1) as u64,
                    tx_id: 0,
                    op: 1,
                    payload: crate::wal::put_payload(
                        encode_utf8("__schema__:"@ + qualified_name(table_name@).1),
                        encode_utf8(join(strings_view(columns@), ","@)),
                    ),
                }),
            !old(self).in_tx() && !(old(db).logging() && old(db).log().spec_lsn() == u64::MAX) && inline_put_fits(
                old(db).tree(),
                encode_utf8("__schema__:"@ + qualified_name(table_name@).1),
                encode_utf8(join(strings_view(columns@), ","@)),
            ) ==> r is Ok && stored_value(*final(db), encode_utf8("__schema__:"@ + qualified_name(table_name@).1))
                == Some(Some(encode_utf8(join(strings_view(columns@), ","@)))),
            !old(self).in_tx() && !(old(db).logging() && old(db).log().spec_lsn() == u64::MAX) && Database::single_leaf(*old(db)) && Database::leaf_room(
                *old(db),
                encode_utf8("__schema__:"@ + qualified_name(table_name@).1),
                encode_utf8(join(strings_view(columns@), ","@)),
            ) ==> r is Ok && Database::single_leaf(*final(db)) && Database::leaf_contents(*final(db)) == Database::leaf_contents(*old(db)).insert(
                encode_utf8("__schema__:"@ + qualified_name(table_name@).1),
                encode_utf8(join(strings_view(columns@), ","@)),
            ),
            query_log_full_only_at_limit(r, *final(db)),
    {
        let (schema_name, t_name) = parse_qualified_table_name(table_name);
        let mut k: Vec<char> = Vec::new();
        push_str(&mut k, "__schema__:");
        push_str(&mut k, t_name.as_str());
        let key = chars_bytes(k.as_slice());
        let mut v: Vec<char> = Vec::new();
        push_joined(&mut v, columns, ",");
        let value = chars_bytes(v.as_slice());
        if self.in_transaction {
            self.write_buffer.insert(key, Some(value));
        } else {
            match db.put(key.as_slice(), value.as_slice()) {
                Ok(()) => {},
                Err(e) => {
                    return Err(QueryError::Db(e));
                },
            }
        }
        let mut out: Vec<char> = Vec::new();
        push_str(&mut out, "Query OK, table '");
        if !chars_eq(chars_of(schema_name.as_str()).as_slice(), chars_of(DEFAULT_SCHEMA).as_slice()) {
            push_str(&mut out, schema_name.as_str());
            push_str(&mut out, ".");
        }
        push_str(&mut out, t_name.as_str());
        push_str(&mut out, "' created.");
        Ok(string_of(out.as_slice()))
    }

    /// Adds each stored row of `records` (under `prefix`) that has a value at every one of
    /// `positions` to the index entry of its joined values under `column_key`.
    #[verifier::spinoff_prover]
    fn add_rows_to_index(
        &mut self,
        db: &mut Database,
        t_name: &str,
        column_key: &str,
        records: &Vec<(Vec<u8>, Vec<u8>)>,
        prefix: &[u8],
        positions: &Vec<usize>,
        n_columns: usize,
    ) -> (r: Result<(), QueryError>)
        requires
            old(db).wf(),
            old(self).wf(),
        ensures
            final(db).wf(),
            final(self).wf(),
            final(self).in_tx() == old(self).in_tx(),
            final(self).tx_id() == old(self).tx_id(),
            !old(self).in_tx() ==> *final(self) == *old(self),
            final(db).logging() == old(db).logging(),
            old(db).log().spec_pending().is_prefix_of(final(db).log().spec_pending()),
            same_but_index(old(self).pending_map(), final(self).pending_map(), t_name@),
            records@.len() == 0 ==> r is Ok && *final(db) == *old(db) && *final(self) == *old(self),
            old(self).in_tx() ==> Database::same_contents(*old(db), *final(db)),
            old(self).in_tx() ==> match rows_indexed(
                old(self).pending_map(),
                *old(db),
                t_name@,
                column_key@,
                pairs_view(records@),
                prefix@.len(),
                positions@,
                n_columns as nat,
            ) {
                Some(Ok(m)) => r is Ok && final(self).pending_map() == m,
                Some(Err(x)) => r == Err::<(), QueryError>(QueryError::Row(x)),
                None => true,
            },
            query_log_full_only_at_limit(r, *final(db)),
    {
        let ghost db0 = *old(db);
        let ghost m0 = old(self).pending_map();
        let ghost recs = pairs_view(records@);
        let ghost plen = prefix@.len();
        let mut i: usize = 0;
        proof {
            assert(recs.take(0) =~= Seq::<PairView>::empty());
        }
        while i < records.len()
            invariant
                records@.len() == 0 ==> *db == *old(db) && *self == *old(self),
                db.wf(),
                self.wf(),
                self.in_transaction == old(self).in_transaction,
                self.current_tx_id == old(self).current_tx_id,
                !self.in_transaction ==> *self == *old(self),
                i <= records@.len(),
                db.logging() == old(db).logging(),
                old(db).log().spec_pending().is_prefix_of(db.log().spec_pending()),
                same_but_index(old(self).pending_map(), self.pending_map(), t_name@),
                db0 == *old(db),
                m0 == old(self).pending_map(),
                recs == pairs_view(records@),
                plen == prefix@.len(),
                self.in_transaction ==> Database::same_contents(db0, *db),
                self.in_transaction ==> match rows_indexed(m0, db0, t_name@, column_key@, recs.take(i as int), plen, positions@, n_columns as nat) {
                    Some(Ok(m)) => self.pending_map() == m,
                    Some(Err(_)) => false,
                    None => true,
                },
            decreases records@.len() - i,
        {
            proof {
                assert(recs.take(i + 1).drop_last() =~= recs.take(i as int));
                assert(recs.take(i + 1).last() == recs[i as int]);
                assert(recs[i as int].0 == records@[i as int].0@ && recs[i as int].1 == records@[i as int].1@);
            }
            let decoded = match decode_values(records[i].1.as_slice()) {
                Ok(d) => d,
                Err(e) => {
                    proof {
                        if self.in_transaction {
                            lemma_rows_indexed_failed(m0, db0, t_name@, column_key@, recs, plen, positions@, n_columns as nat, i + 1);
                        }
                    }
                    return Err(QueryError::Row(e));
                },
            };
            let ghost row = strings_view(decoded@);
            let mut vals: Vec<String> = Vec::new();
            let mut j: usize = 0;
            proof {
                assert(positions@.take(0) =~= Seq::<usize>::empty());
                assert(strings_view(vals@) =~= Seq::<Seq<char>>::empty());
            }
            while j < positions.len()
                invariant
                    j <= positions@.len(),
                    row == strings_view(decoded@),
                    strings_view(vals@) == picked_cells(row, positions@.take(j as int)),
                decreases positions@.len() - j,
            {
                proof {
                    assert(positions@.take(j + 1).drop_last() =~= positions@.take(j as int));
                    assert(positions@.take(j + 1).last() == positions@[j as int]);
                }
                if positions[j] < decoded.len() {
                    let ghost prev = vals@;
                    vals.push(decoded[positions[j]].clone());
                    proof {
                        assert(row[positions@[j as int] as int] == decoded@[positions@[j as int] as int]@);
                        assert(strings_view(vals@) =~= strings_view(prev).push(row[positions@[j as int] as int]));
                    }
                }
                j += 1;
            }
            proof {
                assert(positions@.take(j as int) =~= positions@);
            }
            let key = &records[i].0;
            if vals.len() == n_columns && prefix.len() <= key.len() {
                let mut composite: Vec<char> = Vec::new();
                push_joined(&mut composite, vals.as_slice(), "+");
                let cv = string_of(composite.as_slice());
                let pk_bytes = crate::codec::copy_range(key.as_slice(), prefix.len(), key.len());
                let pk = string_from_utf8_lossy(pk_bytes.as_slice());
                let ghost ek = sec_entry_key(t_name@, column_key@, cv@);
                let ghost mb = self.pending_map();
                let ghost before = *db;
                proof {
                    if self.in_transaction {
                        match rows_indexed(m0, db0, t_name@, column_key@, recs.take(i + 1), plen, positions@, n_columns as nat) {
                            Some(Ok(_)) => {
                                assert(stored_value(db0, ek) is Some);
                                crate::storage::lemma_same_contents_lookup(db0, *db, ek);
                            },
                            _ => {},
                        }
                    }
                }
                let res = sec_idx_add(db, &mut self.write_buffer, self.in_transaction, t_name, column_key, cv.as_str(), pk.as_str());
                proof {
                    lemma_same_but_index_trans(old(self).pending_map(), mb, self.pending_map(), t_name@);
                    if self.in_transaction {
                        crate::storage::lemma_same_contents_trans(db0, before, *db);
                    }
                }
                match res {
                    Ok(()) => {},
                    Err(e) => {
                        proof {
                            if self.in_transaction {
                                lemma_rows_indexed_failed(m0, db0, t_name@, column_key@, recs, plen, positions@, n_columns as nat, i + 1);
                            }
                        }
                        return Err(QueryError::Db(e));
                    },
                }
            }
            i += 1;
        }
        proof {
            assert(recs.take(i as int) =~= recs);
        }
        Ok(())
    }

    /// `CREATE INDEX`: registers the index (its columns joined with `,` under
    /// `__index__:<table>:<index>`) and adds every stored row that has all of its columns to
    /// it, keyed by the joined column names and values ('+' between them).
    #[verifier::spinoff_prover]
    pub fn create_index(&mut self, db: &mut Database, index_name: &str, table_name: &str, columns: &[String]) -> (r: Result<String, QueryError>)
        requires
            old(db).wf(),
            old(self).wf(),
        ensures
            final(db).wf(),
            final(self).wf(),
            final(self).in_tx() == old(self).in_tx(),
            final(self).tx_id() == old(self).tx_id(),
            !old(self).in_tx() ==> *final(self) == *old(self),
            r matches Ok(m) ==> m@ == "Query OK, index '"@ + index_name@ + "' created on '"@ + qualified_name(table_name@).0
                + "."@ + qualified_name(table_name@).1 + "("@ + join(strings_view(columns@), ","@) + ")'."@,
            table_missing(*old(self), *old(db), qualified_name(table_name@).1)
                ==> (r matches Err(QueryError::NoSuchTable { name }) && name@ == table_name@),
            seen_columns(*old(self), *old(db), qualified_name(table_name@).1) is Some
                && (stored_value(*old(db), encode_utf8("__index__:"@ + qualified_name(table_name@).1 + ":"@ + index_name@)) matches Some(Some(_)))
                ==> (r matches Err(QueryError::IndexExists { name }) && name@ == index_name@),
            old(db).logging() && r is Ok ==> (old(db).log().spec_pending() + crate::wal::frame_bytes(
                crate::wal::FrameView {
                    lsn: (old(db).log().spec_lsn() + 1) as u64,
                    tx_id: 0,
                    op: 1,
                    payload: crate::wal::put_payload(
                        encode_utf8("__index__:"@ + qualified_name(table_name@).1 + ":"@ + index_name@),
                        encode_utf8(join(strings_view(columns@), ","@)),
                    ),
                },
            )).is_prefix_of(final(db).log().spec_pending()),
            same_but_index(old(self).pending_map(), final(self).pending_map(), qualified_name(table_name@).1),
            query_log_full_only_at_limit(r, *final(db)),
            index_lands(*old(self), *old(db), table_name@, index_name@, columns@) ==> r is Ok && stored_value(
                *final(db),
                encode_utf8("__index__:"@ + qualified_name(table_name@).1 + ":"@ + index_name@),
            ) == Some(Some(encode_utf8(join(strings_view(columns@), ","@)))),
    {
        let ghost lands = index_lands(*old(self), *old(db), table_name@, index_name@, columns@);
        proof {
            if lands {
                lemma_index_lands(*old(self), *old(db), table_name@, index_name@, columns@);
            }
        }
        let (schema_name, t_name) = parse_qualified_table_name(table_name);
        let ghost db0 = *old(db);
        let col_names = match self.described_columns(db, t_name.as_str(), table_name) {
            Ok(c) => c,
            Err(e) => {
                return Err(e);
            },
        };
        let ghost mkey = encode_utf8("__index__:"@ + t_name@ + ":"@ + index_name@);
        let ghost jv = encode_utf8(join(strings_view(columns@), ","@));
        proof {
            if stored_value(db0, mkey) is Some {
                crate::storage::lemma_same_contents_lookup(db0, *db, mkey);
            }
            if lands {
                assert(seen_columns(*old(self), db0, t_name@) == Some(strings_view(col_names@)));
            }
        }
        let mut mk: Vec<char> = Vec::new();
        push_str(&mut mk, "__index__:");
        push_str(&mut mk, t_name.as_str());
        push_str(&mut mk, ":");
        push_str(&mut mk, index_name);
        let meta_key = chars_bytes(mk.as_slice());
        match db.get(meta_key.as_slice()) {
            Ok(Some(_)) => {
                return Err(QueryError::IndexExists { name: text(index_name) });
            },
            Ok(None) => {},
            Err(e) => {
                return Err(QueryError::Db(e));
            },
        }
        let mut joined: Vec<char> = Vec::new();
        push_joined(&mut joined, columns, ",");
        let joined_bytes = chars_bytes(joined.as_slice());
        proof {
            if lands {
                crate::storage::lemma_same_contents_single_leaf(db0, *db);
            }
        }
        let ghost logged = db0.log().spec_pending() + crate::wal::frame_bytes(
            crate::wal::FrameView {
                lsn: (db0.log().spec_lsn() + 1) as u64,
                tx_id: 0,
                op: 1,
                payload: crate::wal::put_payload(mkey, encode_utf8(join(strings_view(columns@), ","@))),
            },
        );
        match db.put(meta_key.as_slice(), joined_bytes.as_slice()) {
            Ok(()) => {},
            Err(e) => {
                return Err(QueryError::Db(e));
            },
        }
        proof {
            if db0.logging() {
                assert(logged.is_prefix_of(db.log().spec_pending()));
            }
        }
        let mut positions: Vec<usize> = Vec::new();
        let mut c: usize = 0;
        while c < columns.len()
            invariant
                !table_missing(*old(self), *old(db), qualified_name(table_name@).1),
                db.wf(),
                self.wf(),
                *self == *old(self),
                c <= columns@.len(),
                db.logging() == db0.logging(),
                db0.logging() ==> logged.is_prefix_of(db.log().spec_pending()),
                mkey == encode_utf8("__index__:"@ + qualified_name(table_name@).1 + ":"@ + index_name@),
                db0 == *old(db),
                !(seen_columns(*old(self), db0, qualified_name(table_name@).1) is Some && (stored_value(db0, mkey) matches Some(Some(_)))),
                lands == index_lands(*old(self), *old(db), table_name@, index_name@, columns@),
                jv == encode_utf8(join(strings_view(columns@), ","@)),
                lands ==> Database::single_leaf(*db) && Database::leaf_contents(*db) == Database::leaf_contents(db0).insert(mkey, jv),
                lands ==> forall|j: int| 0 <= j < columns@.len() ==> first_position(strings_view(col_names@), (#[trigger] columns@[j])@) is Some,
            decreases columns@.len() - c,
        {
            match column_position(col_names.as_slice(), columns[c].as_str()) {
                Some(p) => positions.push(p),
                None => {
                    return Err(QueryError::NoSuchColumnInTable { column: columns[c].clone(), table: text(table_name) });
                },
            }
            c += 1;
        }
        let mut pfx: Vec<char> = Vec::new();
        push_str(&mut pfx, t_name.as_str());
        push_str(&mut pfx, ":");
        let prefix = chars_bytes(pfx.as_slice());
        proof {
            if lands {
                assert(prefix@ == encode_utf8(t_name@ + ":"@));
                crate::storage::tree::lemma_leaf_root_scan_empty(db.tree(), Database::root_records(*db), prefix@);
            }
        }
        let ghost db_s = *db;
        let records = match db.scan_prefix(prefix.as_slice()) {
            Ok(rs) => rs,
            Err(e) => {
                return Err(QueryError::Db(e));
            },
        };
        proof {
            if lands {
                crate::storage::lemma_same_contents_single_leaf(db_s, *db);
            }
        }
        let mut ck: Vec<char> = Vec::new();
        push_joined(&mut ck, columns, "+");
        let column_key = string_of(ck.as_slice());
        match self.add_rows_to_index(db, t_name.as_str(), column_key.as_str(), &records, prefix.as_slice(), &positions, columns.len()) {
            Ok(()) => {},
            Err(e) => {
                return Err(e);
            },
        }
        proof {
            if lands {
                crate::storage::tree::lemma_leaf_root_lookup(db.tree(), Database::root_records(*db));
            }
        }
        let mut out: Vec<char> = Vec::new();
        push_str(&mut out, "Query OK, index '");
        push_str(&mut out, index_name);
        push_str(&mut out, "' created on '");
        push_str(&mut out, schema_name.as_str());
        push_str(&mut out, ".");
        push_str(&mut out, t_name.as_str());
        push_str(&mut out, "(");
        push_all(&mut out, joined.as_slice());
        push_str(&mut out, ")'.");
        Ok(string_of(out.as_slice()))
    }

    /// `INSERT`: checks the row, against the catalog's description `catalog` when there is one
    /// and else by its length against the legacy description, then writes it under
    /// `<table>:<first value>` (pending inside a transaction, with the transaction's id as its
    /// creator; in the database outside one, with creator 1) and adds it to the table's
    /// secondary indexes.
    #[verifier::spinoff_prover]
    #[verifier::rlimit(60)]
    pub fn insert(&mut self, db: &mut Database, table_name: &str, values: &[String], catalog: Option<&TableSchema>) -> (r: Result<String, QueryError>)
        requires
            old(db).wf(),
            old(self).wf(),
        ensures
            final(db).wf(),
            final(self).wf(),
            final(self).in_tx() == old(self).in_tx(),
            final(self).tx_id() == old(self).tx_id(),
            !old(self).in_tx() ==> *final(self) == *old(self),
            r matches Ok(m) ==> m@ == "Query OK, 1 row inserted."@ && values@.len() > 0,
            r is Ok && catalog is Some ==> row_fits(catalog->0.columns@, strings_view(values@)),
            catalog is Some && !row_fits(catalog->0.columns@, strings_view(values@)) ==> r is Err,
            catalog is Some && !row_fits(catalog->0.columns@, strings_view(values@)) && seen_columns(*old(self), *old(db), qualified_name(table_name@).1) is Some
                ==> r == Err::<String, QueryError>(row_error(catalog->0.columns@, values@)),
            catalog is None ==> match seen_columns(*old(self), *old(db), qualified_name(table_name@).1) {
                Some(cols) => if cols.len() != values@.len() {
                    r matches Err(QueryError::ColumnCount { expected, got }) && expected == cols.len() && got == values@.len()
                } else if values@.len() == 0 {
                    r matches Err(QueryError::NoValues)
                } else {
                    true
                },
                None => true,
            },
            table_missing(*old(self), *old(db), qualified_name(table_name@).1)
                ==> (r matches Err(QueryError::NoSuchTable { name }) && name@ == table_name@),
            old(self).in_tx() && r is Ok ==> same_but_index(
                old(self).pending_map().insert(
                    encode_utf8(qualified_name(table_name@).1 + ":"@ + values@[0]@),
                    Some(encoded_row(strings_view(values@), old(self).tx_id(), 0)),
                ),
                final(self).pending_map(),
                qualified_name(table_name@).1,
            ),
            !old(self).in_tx() && old(db).logging() && r is Ok ==> (old(db).log().spec_pending() + crate::wal::frame_bytes(
                crate::wal::FrameView {
                    lsn: (old(db).log().spec_lsn() + 1) as u64,
                    tx_id: 0,
                    op: 1,
                    payload: crate::wal::put_payload(
                        encode_utf8(qualified_name(table_name@).1 + ":"@ + values@[0]@),
                        encoded_row(strings_view(values@), 1, 0),
                    ),
                },
            )).is_prefix_of(final(db).log().spec_pending()),
            r matches Err(QueryError::NoValues) ==> values@.len() == 0,
            query_log_full_only_at_limit(r, *final(db)),
            old(self).in_tx() ==> Database::same_contents(*old(db), *final(db)),
            r is Err && !(r matches Err(QueryError::Db(_))) ==> Database::same_contents(*old(db), *final(db)),
            insert_lands(*old(self), *old(db), table_name@, values@, catalog) ==> r is Ok && stored_value(
                *final(db),
                encode_utf8(qualified_name(table_name@).1 + ":"@ + values@[0]@),
            ) == Some(Some(encoded_row(strings_view(values@), 1, 0))),
    {
        let ghost db0 = *old(db);
        let ghost t = qualified_name(table_name@).1;
        let ghost lands = insert_lands(*old(self), *old(db), table_name@, values@, catalog);
        proof {
            if lands {
                crate::storage::tree::lemma_leaf_root_lookup(db0.tree(), Database::root_records(db0));
            }
        }
        let (_schema_name, t_name) = parse_qualified_table_name(table_name);
        let col_names = match self.described_columns(db, t_name.as_str(), table_name) {
            Ok(c) => c,
            Err(e) => {
                return Err(e);
            },
        };
        let active_tx = if self.in_transaction {
            self.current_tx_id
        } else {
            1
        };
        match catalog {
            Some(sch) => {
                match check_row(&sch.columns, values) {
                    Ok(()) => {},
                    Err(e) => {
                        return Err(e);
                    },
                }
            },
            None => {
                if values.len() != col_names.len() {
                    return Err(QueryError::ColumnCount { expected: col_names.len(), got: values.len() });
                }
            },
        }
        if values.len() == 0 {
            return Err(QueryError::NoValues);
        }
        let mut k: Vec<char> = Vec::new();
        push_str(&mut k, t_name.as_str());
        push_str(&mut k, ":");
        push_str(&mut k, values[0].as_str());
        let key = chars_bytes(k.as_slice());
        let row = encode_values_mvcc(values, active_tx, 0);
        let ghost db1 = *db;
        proof {
            if lands {
                crate::storage::lemma_same_contents_single_leaf(db0, db1);
            }
        }
        if self.in_transaction {
            self.write_buffer.insert(key, Some(row));
        } else {
            match db.put(key.as_slice(), row.as_slice()) {
                Ok(()) => {},
                Err(e) => {
                    return Err(QueryError::Db(e));
                },
            }
        }
        let ghost db2 = *db;
        proof {
            if lands {
                assert(key@ == encode_utf8(t + ":"@ + values@[0]@));
                assert(row@ == encoded_row(strings_view(values@), 1, 0));
                assert(Database::leaf_room(db1, key@, row@));
                assert(Database::leaf_contents(db2) == Database::leaf_contents(db0).insert(key@, row@));
                crate::storage::tree::lemma_leaf_root_scan_empty(db2.tree(), Database::root_records(db2), encode_utf8("__index__:"@ + t + ":"@));
                assert(Seq::<crate::storage::tree::PairView>::empty().map_values(|p: crate::storage::tree::PairView| utf8_lossy(p.1)) =~= Seq::<Seq<char>>::empty());
                assert(index_defs(db2, t_name@) == Some(Seq::<Seq<char>>::empty()));
            }
        }
        let sync_res = sync_secondary_indexes_on_insert(db, &mut self.write_buffer, self.in_transaction, t_name.as_str(), col_names.as_slice(), values, values[0].as_str());
        proof {
            if old(self).in_tx() {
                crate::storage::lemma_same_contents_trans(db0, db2, *db);
            }
        }
        match sync_res {
            Ok(()) => {},
            Err(e) => {
                return Err(QueryError::Db(e));
            },
        }
        proof {
            if lands {
                crate::storage::lemma_same_contents_single_leaf(db2, *db);
                crate::storage::tree::lemma_leaf_root_lookup(db.tree(), Database::root_records(*db));
            }
        }
        Ok(text("Query OK, 1 row inserted."))
    }

    /// The stored rows of table `t_name` as this executor sees them (with its pending writes
    /// laid over them inside a transaction), decoded.
    pub fn table_rows(&mut self, db: &mut Database, t_name: &str) -> (r: Result<Vec<Vec<String>>, QueryError>)
        requires
            old(db).wf(),
            old(self).wf(),
        ensures
            final(db).wf(),
            Database::same_contents(*old(db), *final(db)),
            final(db).log() == old(db).log(),
            *final(self) == *old(self),
            r matches Err(e) ==> e is Db || e is Row,
            old(db).tree().pool().coherent() ==> match scan_result(
                pages_of(old(db).tree().pool()),
                old(db).tree().root(),
                encode_utf8(t_name@ + ":"@),
                old(db).tree().pool().store().len(),
            ) {
                None => r matches Err(QueryError::Db(_)),
                Some(ps) => match rows_of(overlaid(ps, visible_writes(old(self).pending(), old(self).in_tx()), encode_utf8(t_name@ + ":"@))) {
                    Ok(rows) => r matches Ok(v) && rows_view(v@) == rows,
                    Err(e) => r == Err::<Vec<Vec<String>>, QueryError>(QueryError::Row(e)),
                },
            },
            query_log_full_only_at_limit(r, *final(db)),
    {
        match scan_table_rows(db, &self.write_buffer, self.in_transaction, t_name) {
            Ok(rows) => Ok(rows),
            Err(ScanError::Db(e)) => Err(QueryError::Db(e)),
            Err(ScanError::Row(e)) => Err(QueryError::Row(e)),
        }
    }

    /// The stored row under `key` as this executor sees it: its pending write inside a
    /// transaction, else the database's value.
    fn row_bytes(&self, db: &mut Database, key: &[u8]) -> (r: Result<Option<Vec<u8>>, DbError>)
        requires
            old(db).wf(),
            self.wf(),
        ensures
            final(db).wf(),
            Database::same_contents(*old(db), *final(db)),
            seen_value(*self, *old(db), key@) matches Some(x) ==> r matches Ok(v) && opt_view(v) == x,
            crate::storage::log_full_only_at_limit(r, *final(db)),
    {
        if self.in_transaction && self.write_buffer.contains_key(key) {
            match self.write_buffer.get(key) {
                Some(v) => Ok(v),
                None => Ok(None),
            }
        } else {
            db.get(key)
        }
    }

    /// The rows that the secondary index entry of `value` in `column` lists, each read as this
    /// executor sees it; `None` when there is no such entry.
    fn indexed_rows(&mut self, db: &mut Database, t_name: &str, column: &str, value: &str) -> (r: Result<Option<Vec<Vec<String>>>, QueryError>)
        requires
            old(db).wf(),
            old(self).wf(),
        ensures
            final(db).wf(),
            Database::same_contents(*old(db), *final(db)),
            *final(self) == *old(self),
            match stored_value(*old(db), sec_entry_key(t_name@, column@, value@)) {
                Some(None) => r == Ok::<Option<Vec<Vec<String>>>, QueryError>(None),
                Some(Some(b)) => match listed_rows(*old(self), *old(db), t_name@, split_char(utf8_lossy(b), pk_sep())) {
                    Some(Ok(rows)) => r matches Ok(Some(v)) && rows_view(v@) == rows,
                    Some(Err(x)) => r == Err::<Option<Vec<Vec<String>>>, QueryError>(QueryError::Row(x)),
                    None => true,
                },
                None => true,
            },
            query_log_full_only_at_limit(r, *final(db)),
    {
        let ghost db0 = *db;
        let ghost e0 = *self;
        let sk = sec_key_chars(t_name, column, value);
        let sk_bytes = chars_bytes(sk.as_slice());
        let entry = match db.get(sk_bytes.as_slice()) {
            Ok(Some(b)) => b,
            Ok(None) => {
                return Ok(None);
            },
            Err(e) => {
                return Err(QueryError::Db(e));
            },
        };
        let listed = string_from_utf8_lossy(entry.as_slice());
        let pks = split_char_exec(chars_of(listed.as_str()).as_slice(), '\u{1F}');
        let ghost pks_v = pks@.map_values(|v: Vec<char>| v@);
        proof {
            assert(sk_bytes@ == sec_entry_key(t_name@, column@, value@));
            assert(pks_v.take(0) =~= Seq::<Seq<char>>::empty());
            assert(rows_view(Seq::<Vec<String>>::empty()) =~= Seq::<RowView>::empty());
        }
        let mut rows: Vec<Vec<String>> = Vec::new();
        let mut i: usize = 0;
        while i < pks.len()
            invariant
                db.wf(),
                self.wf(),
                *self == e0,
                e0 == *old(self),
                db0 == *old(db),
                Database::same_contents(db0, *db),
                pks_v == pks@.map_values(|v: Vec<char>| v@),
                pks_v == split_char(utf8_lossy(entry@), pk_sep()),
                stored_value(db0, sec_entry_key(t_name@, column@, value@)) is Some
                    ==> stored_value(db0, sec_entry_key(t_name@, column@, value@)) == Some(Some(entry@)),
                i <= pks@.len(),
                match listed_rows(e0, db0, t_name@, pks_v.take(i as int)) {
                    Some(Ok(rs)) => rows_view(rows@) == rs,
                    Some(Err(_)) => false,
                    None => true,
                },
            decreases pks@.len() - i,
        {
            let mut k: Vec<char> = Vec::new();
            push_str(&mut k, t_name);
            push_str(&mut k, ":");
            push_all(&mut k, pks[i].as_slice());
            let key = chars_bytes(k.as_slice());
            proof {
                assert(pks_v.take(i + 1).drop_last() =~= pks_v.take(i as int));
                assert(pks_v.take(i + 1).last() == pks[i as int]@);
                assert(key@ == encode_utf8(t_name@ + ":"@ + pks_v.take(i + 1).last()));
            }
            let ghost db_before = *db;
            let found = match self.row_bytes(db, key.as_slice()) {
                Ok(v) => v,
                Err(e) => {
                    proof {
                        if seen_value(e0, db0, key@) is Some {
                            lemma_seen_value_kept(e0, db0, db_before, key@);
                        }
                        lemma_listed_rows_failed(e0, db0, t_name@, pks_v, i + 1);
                    }
                    return Err(QueryError::Db(e));
                },
            };
            proof {
                if seen_value(e0, db0, key@) is Some {
                    lemma_seen_value_kept(e0, db0, db_before, key@);
                }
                crate::storage::lemma_same_contents_trans(db0, db_before, *db);
            }
            match found {
                Some(v) => match decode_values(v.as_slice()) {
                    Ok(row) => {
                        let ghost before = rows@;
                        rows.push(row);
                        proof {
                            assert(rows_view(rows@) =~= rows_view(before).push(strings_view(row@)));
                        }
                    },
                    Err(e) => {
                        proof {
                            lemma_listed_rows_failed(e0, db0, t_name@, pks_v, i + 1);
                        }
                        return Err(QueryError::Row(e));
                    },
                },
                None => {},
            }
            i += 1;
        }
        proof {
            assert(pks_v.take(i as int) =~= pks_v);
        }
        Ok(Some(rows))
    }

    /// The rows a `SELECT` of table `t_name` (whose columns are `col_names`) keeps before
    /// ordering: those the secondary index entry of the `WHERE` value lists when there is one,
    /// else the table's rows, filtered on the `WHERE` column when there is one.
    fn where_rows(&mut self, db: &mut Database, t_name: &str, col_names: &Vec<String>, where_clause: &Option<(String, String)>) -> (r: Result<Vec<Vec<String>>, QueryError>)
        requires
            old(db).wf(),
            old(self).wf(),
        ensures
            final(db).wf(),
            Database::same_contents(*old(db), *final(db)),
            *final(self) == *old(self),
            match selected_rows(*old(self), *old(db), t_name@, strings_view(col_names@), where_view(*where_clause)) {
                Some(Ok(rows)) => r matches Ok(v) && rows_view(v@) == rows,
                Some(Err(x)) => r == Err::<Vec<Vec<String>>, QueryError>(QueryError::Row(x)),
                None => match where_view(*where_clause) {
                    Some((c, v)) => stored_value(*old(db), sec_entry_key(t_name@, c, v)) == Some(None::<Seq<u8>>)
                        && (seen_rows(*old(self), *old(db), t_name@) matches Some(Ok(_)))
                        && first_position(strings_view(col_names@), c) is None ==> (r matches Err(QueryError::NoSuchColumn { column }) && column@ == c),
                    None => true,
                },
            },
            query_log_full_only_at_limit(r, *final(db)),
    {
        let ghost db0 = *old(db);
        let ghost e0 = *old(self);
        let ghost tv = t_name@;
        let mut rows: Vec<Vec<String>> = Vec::new();
        let mut used_index = false;
        match where_clause {
            Some((c, v)) => {
                match self.indexed_rows(db, t_name, c.as_str(), v.as_str()) {
                    Ok(Some(found)) => {
                        rows = found;
                        used_index = true;
                    },
                    Ok(None) => {},
                    Err(e) => {
                        return Err(e);
                    },
                }
            },
            None => {},
        }
        let ghost db1 = *db;
        if !used_index {
            proof {
                if seen_rows(e0, db0, tv) is Some {
                    lemma_seen_rows_kept(e0, db0, db1, tv);
                }
            }
            rows = match self.table_rows(db, t_name) {
                Ok(rs) => rs,
                Err(e) => {
                    return Err(e);
                },
            };
            proof {
                crate::storage::lemma_same_contents_trans(db0, db1, *db);
            }
            match where_clause {
                Some((c, v)) => {
                    let idx = match column_position(col_names.as_slice(), c.as_str()) {
                        Some(i) => i,
                        None => {
                            return Err(QueryError::NoSuchColumn { column: c.clone() });
                        },
                    };
                    proof {
                        lemma_rows_views_agree(rows@);
                    }
                    let mut plan = FilterExec::new(SeqScanExec::new(rows), idx, v.clone());
                    rows = collect_rows(&mut plan);
                    proof {
                        lemma_rows_views_agree(rows@);
                    }
                },
                None => {},
            }
        }
        Ok(rows)
    }

    /// `SELECT` from a stored table `t_name` (named `table_name` in the statement).
    fn table_select(
        &mut self,
        db: &mut Database,
        t_name: &str,
        table_name: &str,
        where_clause: &Option<(String, String)>,
        order_by: &Option<(String, bool)>,
        limit_offset: Option<(usize, usize)>,
    ) -> (r: Result<SelectReply, QueryError>)
        requires
            old(db).wf(),
            old(self).wf(),
        ensures
            final(db).wf(),
            Database::same_contents(*old(db), *final(db)),
            *final(self) == *old(self),
            r matches Ok(SelectReply::Sort { col_names, rows, sort_col, descending, limit_offset: lo }) ==> (order_by matches Some((c, d))
                && d == descending && lo == limit_offset && first_position(strings_view(col_names@), c@) == Some(sort_col as int)),
            order_by is None ==> !(r matches Ok(SelectReply::Sort { .. })),
            !(r matches Ok(SelectReply::ColumnsCatalog)),
            table_missing(*old(self), *old(db), t_name@) ==> (r matches Err(QueryError::NoSuchTable { name }) && name@ == table_name@),
            select_answer(*old(self), *old(db), t_name@, where_view(*where_clause), order_view(*order_by), limit_offset, r),
    {
        proof {
            reveal(select_answer);
        }
        let ghost db0 = *old(db);
        let ghost e0 = *old(self);
        let ghost tv = t_name@;
        let col_names = match self.described_columns(db, t_name, table_name) {
            Ok(c) => c,
            Err(e) => {
                return Err(e);
            },
        };
        let ghost db1 = *db;
        let ghost cols = strings_view(col_names@);
        proof {
            if seen_columns(e0, db0, tv) is Some {
                assert(seen_columns(e0, db0, tv) == Some(cols));
            }
            lemma_selected_rows_kept(e0, db0, db1, tv, cols, where_view(*where_clause));
        }
        let rows = match self.where_rows(db, t_name, &col_names, where_clause) {
            Ok(rs) => rs,
            Err(e) => {
                return Err(e);
            },
        };
        proof {
            crate::storage::lemma_same_contents_trans(db0, db1, *db);
        }
        select_reply(col_names, rows, order_by, limit_offset)
    }

    /// `SELECT`. The virtual tables `information_schema.tables` (answered here) and
    /// `information_schema.columns` (answered by the caller, from the catalog's decoded
    /// descriptions) come first. Otherwise the rows come from the secondary index entry of
    /// the `WHERE` value when there is one, else from a scan filtered on the `WHERE` column;
    /// with `ORDER BY`, the caller sorts them and finishes with `finish_select`.
    pub fn select(
        &mut self,
        db: &mut Database,
        table_name: &str,
        where_clause: &Option<(String, String)>,
        order_by: &Option<(String, bool)>,
        limit_offset: Option<(usize, usize)>,
    ) -> (r: Result<SelectReply, QueryError>)
        requires
            old(db).wf(),
            old(self).wf(),
        ensures
            final(db).wf(),
            Database::same_contents(*old(db), *final(db)),
            *final(self) == *old(self),
            r matches Ok(SelectReply::ColumnsCatalog) <==> is_virtual(qualified_name(table_name@), "columns"@) && !is_virtual(qualified_name(table_name@), "tables"@),
            r matches Ok(SelectReply::Sort { col_names, rows, sort_col, descending, limit_offset: lo }) ==> (order_by matches Some((c, d))
                && d == descending && lo == limit_offset && first_position(strings_view(col_names@), c@) == Some(sort_col as int)),
            order_by is None ==> !(r matches Ok(SelectReply::Sort { .. })),
            !is_virtual(qualified_name(table_name@), "tables"@) && !is_virtual(qualified_name(table_name@), "columns"@)
                && table_missing(*old(self), *old(db), qualified_name(table_name@).1)
                ==> (r matches Err(QueryError::NoSuchTable { name }) && name@ == table_name@),
            !is_virtual(qualified_name(table_name@), "tables"@) && !is_virtual(qualified_name(table_name@), "columns"@) ==> select_answer(
                *old(self),
                *old(db),
                qualified_name(table_name@).1,
                where_view(*where_clause),
                order_view(*order_by),
                limit_offset,
                r,
            ),
    {
        let (schema_name, t_name) = parse_qualified_table_name(table_name);
        if virtual_table(schema_name.as_str(), t_name.as_str(), "tables") {
            let rows = match CatalogManager::query_information_schema_tables(db) {
                Ok(rows) => rows,
                Err(e) => {
                    return Err(QueryError::Db(e));
                },
            };
            let mut headers: Vec<String> = Vec::new();
            headers.push(text("table_catalog"));
            headers.push(text("table_schema"));
            headers.push(text("table_name"));
            headers.push(text("table_type"));
            return Ok(SelectReply::Table(format_table_output(headers.as_slice(), rows.as_slice())));
        }
        if virtual_table(schema_name.as_str(), t_name.as_str(), "columns") {
            return Ok(SelectReply::ColumnsCatalog);
        }
        self.table_select(db, t_name.as_str(), table_name, where_clause, order_by, limit_offset)
    }

    /// `SELECT ... JOIN`: the rows of both tables joined on the given columns.
    #[verifier::spinoff_prover]
    pub fn select_join(
        &mut self,
        db: &mut Database,
        left_table: &str,
        right_table: &str,
        left_col: &str,
        right_col: &str,
        is_left_join: bool,
    ) -> (r: Result<String, QueryError>)
        requires
            old(db).wf(),
            old(self).wf(),
        ensures
            final(db).wf(),
            Database::same_contents(*old(db), *final(db)),
            *final(self) == *old(self),
            join_answer(
                *old(self),
                *old(db),
                qualified_name(left_table@).1,
                qualified_name(right_table@).1,
                left_table@,
                right_table@,
                left_col@,
                right_col@,
                is_left_join,
                r,
            ),
    {
        proof {
            reveal(join_answer);
        }
        let ghost db0 = *old(db);
        let ghost e0 = *old(self);
        let (_ls, l_name) = parse_qualified_table_name(left_table);
        let (_rs, r_name) = parse_qualified_table_name(right_table);
        let left_cols = match self.described_columns(db, l_name.as_str(), left_table) {
            Ok(c) => c,
            Err(e) => {
                return Err(e);
            },
        };
        let ghost db1 = *db;
        proof {
            if seen_columns(e0, db0, r_name@) is Some {
                lemma_seen_columns_kept(e0, db0, db1, r_name@);
            }
            if seen_columns(e0, db0, l_name@) is Some {
                assert(seen_columns(e0, db0, l_name@) == Some(strings_view(left_cols@)));
            }
        }
        let right_cols = match self.described_columns(db, r_name.as_str(), right_table) {
            Ok(c) => c,
            Err(e) => {
                return Err(e);
            },
        };
        let ghost db2 = *db;
        proof {
            crate::storage::lemma_same_contents_trans(db0, db1, db2);
            if seen_columns(e0, db0, r_name@) is Some {
                assert(seen_columns(e0, db0, r_name@) == Some(strings_view(right_cols@)));
            }
            if seen_rows(e0, db0, l_name@) is Some {
                lemma_seen_rows_kept(e0, db0, db2, l_name@);
            }
        }
        let left_key = match column_position(left_cols.as_slice(), left_col) {
            Some(i) => i,
            None => {
                return Err(QueryError::NoSuchColumnInTable { column: text(left_col), table: text(left_table) });
            },
        };
        let right_key = match column_position(right_cols.as_slice(), right_col) {
            Some(i) => i,
            None => {
                return Err(QueryError::NoSuchColumnInTable { column: text(right_col), table: text(right_table) });
            },
        };
        let left_rows = match self.table_rows(db, l_name.as_str()) {
            Ok(rs) => rs,
            Err(e) => {
                return Err(e);
            },
        };
        proof {
            crate::storage::lemma_same_contents_trans(db0, db2, *db);
            if seen_rows(e0, db0, r_name@) is Some {
                lemma_seen_rows_kept(e0, db0, *db, r_name@);
            }
        }
        let right_rows = match self.table_rows(db, r_name.as_str()) {
            Ok(rs) => rs,
            Err(e) => {
                return Err(e);
            },
        };
        Ok(join_output(left_cols, right_cols, left_rows, right_rows, left_key, right_key, is_left_join))
    }

    /// `UPDATE ... SET column = value WHERE <key> = pk_val`: checks the new value against the
    /// catalog's description `catalog` when there is one, then rewrites each row whose first
    /// value is `pk_val` (pending inside a transaction, in the database outside one), moving
    /// it from the old value's entry to the new value's entry of the indexes on `column`.
    #[verifier::spinoff_prover]
    #[verifier::rlimit(100)]
    pub fn update(
        &mut self,
        db: &mut Database,
        table_name: &str,
        column: &str,
        value: &str,
        pk_val: &str,
        catalog: Option<&TableSchema>,
    ) -> (r: Result<String, QueryError>)
        requires
            old(db).wf(),
            old(self).wf(),
        ensures
            final(db).wf(),
            final(self).wf(),
            final(self).in_tx() == old(self).in_tx(),
            final(self).tx_id() == old(self).tx_id(),
            !old(self).in_tx() ==> *final(self) == *old(self),
            r matches Ok(m) ==> exists|n: nat| m@ == count_message(n, "updated"@),
            r matches Ok(m) ==> match seen_rows(*old(self), *old(db), qualified_name(table_name@).1) {
                Some(Ok(rows)) => m@ == count_message(crate::sql::volcano::matching(rows, 0, pk_val@).len(), "updated"@),
                _ => true,
            },
            table_missing(*old(self), *old(db), qualified_name(table_name@).1)
                ==> (r matches Err(QueryError::NoSuchTable { name }) && name@ == table_name@),
            old(self).in_tx() && r is Ok ==> match (
                seen_columns(*old(self), *old(db), qualified_name(table_name@).1),
                seen_rows(*old(self), *old(db), qualified_name(table_name@).1),
            ) {
                (Some(cols), Some(Ok(rows))) => match first_position(cols, column@) {
                    Some(ci) => same_but_index(
                        updated_pending(
                            old(self).pending_map(),
                            qualified_name(table_name@).1,
                            pk_val@,
                            crate::sql::volcano::matching(rows, 0, pk_val@),
                            ci,
                            value@,
                            old(self).tx_id(),
                        ),
                        final(self).pending_map(),
                        qualified_name(table_name@).1,
                    ),
                    None => true,
                },
                _ => true,
            },
            update_goes(*old(self), *old(db), qualified_name(table_name@).1, column@, value@, pk_val@, catalog) ==> r is Ok,
            update_lands(*old(self), *old(db), qualified_name(table_name@).1, column@, value@, pk_val@, catalog) ==> r is Ok
                && stored_value(*final(db), encode_utf8(qualified_name(table_name@).1 + ":"@ + pk_val@))
                == Some(Some(updated_row(*old(self), *old(db), qualified_name(table_name@).1, column@, value@, pk_val@))),
            query_log_full_only_at_limit(r, *final(db)),
    {
        let ghost goes = update_goes(*old(self), *old(db), qualified_name(table_name@).1, column@, value@, pk_val@, catalog);
        let ghost lands = update_lands(*old(self), *old(db), qualified_name(table_name@).1, column@, value@, pk_val@, catalog);
        proof {
            if goes {
                lemma_update_goes(*old(self), *old(db), qualified_name(table_name@).1, column@, value@, pk_val@, catalog);
            }
            if lands {
                lemma_update_lands(*old(self), *old(db), qualified_name(table_name@).1, column@, value@, pk_val@, catalog);
            }
        }
        let (_schema_name, t_name) = parse_qualified_table_name(table_name);
        let col_names = match self.described_columns(db, t_name.as_str(), table_name) {
            Ok(c) => c,
            Err(e) => {
                return Err(e);
            },
        };
        let col_idx = match column_position(col_names.as_slice(), column) {
            Some(i) => i,
            None => {
                return Err(QueryError::NoSuchColumnInTable { column: text(column), table: text(table_name) });
            },
        };
        match catalog {
            Some(sch) => {
                if col_idx < sch.columns.len() {
                    let col = &sch.columns[col_idx];
                    match check_value(value, &col.data_type) {
                        Err(()) => {
                            return Err(QueryError::InvalidValue { raw: text(value), data_type: col.data_type });
                        },
                        Ok(is_null) => {
                            if is_null && !col.is_nullable {
                                return Err(QueryError::NotNull { column: col.name.clone() });
                            }
                        },
                    }
                }
            },
            None => {},
        }
        let ghost db0 = *old(db);
        let ghost e0 = *old(self);
        let ghost tv = t_name@;
        let ghost seen = seen_rows(e0, db0, tv);
        let ghost db_mid = *db;
        proof {
            if seen_rows(e0, db0, tv) is Some {
                lemma_seen_rows_kept(e0, db0, *db, tv);
            }
        }
        let rows = match self.table_rows(db, t_name.as_str()) {
            Ok(rs) => rs,
            Err(e) => {
                return Err(e);
            },
        };
        proof {
            crate::storage::lemma_same_contents_trans(db0, db_mid, *db);
            if lands {
                assert(seen_columns(e0, db0, tv) == Some(strings_view(col_names@)));
            }
        }
        let ghost oj = sole_match(rows_view(rows@), pk_val@)->0;
        let ghost okey = encode_utf8(tv + ":"@ + pk_val@);
        let ghost newrow = encoded_row(rows_view(rows@)[oj].update(col_idx as int, value@), 1, 0);
        let active_tx = if self.in_transaction {
            self.current_tx_id
        } else {
            1
        };
        let pk_chars = chars_of(pk_val);
        let mut count: usize = 0;
        let mut i: usize = 0;
        while i < rows.len()
            invariant
                !table_missing(*old(self), *old(db), qualified_name(table_name@).1),
                db.wf(),
                self.wf(),
                self.in_transaction == old(self).in_transaction,
                self.current_tx_id == old(self).current_tx_id,
                !self.in_transaction ==> *self == *old(self),
                i <= rows@.len(),
                count <= i,
                seen matches Some(Ok(rs)) ==> rows_view(rows@) == rs,
                pk_chars@ == pk_val@,
                count == crate::sql::volcano::matching(rows_view(rows@).take(i as int), 0, pk_val@).len(),
                tv == t_name@,
                goes == update_goes(*old(self), *old(db), qualified_name(table_name@).1, column@, value@, pk_val@, catalog),
                goes ==> self.in_transaction && Database::same_contents(db0, *db),
                goes ==> rows_rewritable(db0, tv, column@, value@, pk_val@, rows_view(rows@), col_idx as int),
                lands == update_lands(*old(self), *old(db), qualified_name(table_name@).1, column@, value@, pk_val@, catalog),
                okey == encode_utf8(tv + ":"@ + pk_val@),
                newrow == encoded_row(rows_view(rows@)[oj].update(col_idx as int, value@), 1, 0),
                !self.in_transaction ==> active_tx == 1,
                lands ==> !self.in_transaction && 0 <= oj < rows@.len() && col_idx < rows_view(rows@)[oj].len()
                    && crate::sql::volcano::cell_matches(rows_view(rows@)[oj], 0, pk_val@)
                    && newrow == updated_row(*old(self), *old(db), qualified_name(table_name@).1, column@, value@, pk_val@),
                lands ==> forall|j2: int| 0 <= j2 < rows_view(rows@).len() && #[trigger] crate::sql::volcano::cell_matches(rows_view(rows@)[j2], 0, pk_val@) ==> j2 == oj,
                lands ==> (index_defs(db0, tv) matches Some(defs) && !defs.contains(column@)),
                lands ==> !(db0.logging() && db0.log().spec_lsn() == u64::MAX) && Database::single_leaf(db0) && Database::leaf_room(db0, okey, newrow),
                lands && i <= oj ==> Database::same_contents(db0, *db),
                lands && i > oj ==> Database::single_leaf(*db) && Database::leaf_contents(*db) == Database::leaf_contents(db0).insert(okey, newrow),
                self.in_transaction ==> active_tx == e0.tx_id(),
                self.in_transaction ==> same_but_index(
                    updated_pending(
                        e0.pending_map(),
                        tv,
                        pk_val@,
                        crate::sql::volcano::matching(rows_view(rows@).take(i as int), 0, pk_val@),
                        col_idx as int,
                        value@,
                        e0.tx_id(),
                    ),
                    self.pending_map(),
                    tv,
                ),
            decreases rows@.len() - i,
        {
            let row = &rows[i];
            proof {
                crate::sql::volcano::lemma_matching_step(rows_view(rows@), i as int, 0, pk_val@);
                assert(rows_view(rows@)[i as int] == strings_view(row@));
                if row@.len() > 0 {
                    assert(strings_view(row@)[0] == row@[0]@);
                }
            }
            if row.len() > 0 && chars_eq(chars_of(row[0].as_str()).as_slice(), pk_chars.as_slice()) {
                if col_idx >= row.len() {
                    proof {
                        if goes {
                            lemma_row_rewritable(db0, tv, column@, value@, pk_val@, rows_view(rows@), col_idx as int, i as int);
                        }
                        if lands {
                            assert(crate::sql::volcano::cell_matches(rows_view(rows@)[i as int], 0, pk_val@));
                        }
                    }
                    return Err(QueryError::CorruptRowLength);
                }
                let pk = row[0].clone();
                let ghost before = self.pending_map();
                let ghost was = updated_pending(
                    e0.pending_map(),
                    tv,
                    pk_val@,
                    crate::sql::volcano::matching(rows_view(rows@).take(i as int), 0, pk_val@),
                    col_idx as int,
                    value@,
                    e0.tx_id(),
                );
                let old_value = row[col_idx].clone();
                let ghost db_r = *db;
                proof {
                    if lands {
                        assert(crate::sql::volcano::cell_matches(rows_view(rows@)[i as int], 0, pk_val@));
                        assert(i == oj);
                        crate::storage::lemma_same_contents_scan(db0, *db, encode_utf8("__index__:"@ + tv + ":"@));
                    }
                    if goes {
                        assert(old_value@ == rows_view(rows@)[i as int][col_idx as int]);
                        lemma_entries_movable(db0, *db, tv, column@, value@, pk_val@, rows_view(rows@), col_idx as int, i as int,
                            self.write_buffer.view_map(), pk@);
                    }
                }
                match sec_idx_remove_for_column(db, &mut self.write_buffer, self.in_transaction, t_name.as_str(), column, old_value.as_str(), pk.as_str()) {
                    Ok(()) => {},
                    Err(e) => {
                        return Err(QueryError::Db(e));
                    },
                }
                let mut new_row = crate::sql::volcano::clone_row(row);
                assert(row_view(new_row).len() == new_row@.len() && row_view(*row).len() == row@.len());
                new_row.set(col_idx, text(value));
                let ghost db_a = *db;
                proof {
                    if lands {
                        crate::storage::lemma_same_contents_trans(db0, db_r, *db);
                        crate::storage::lemma_same_contents_scan(db0, *db, encode_utf8("__index__:"@ + tv + ":"@));
                    }
                    if goes {
                        crate::storage::lemma_same_contents_trans(db0, db_r, *db);
                        lemma_entries_movable(db0, *db, tv, column@, value@, pk_val@, rows_view(rows@), col_idx as int, i as int,
                            self.write_buffer.view_map(), pk@);
                    }
                }
                match sec_idx_add_for_column(db, &mut self.write_buffer, self.in_transaction, t_name.as_str(), column, value, pk.as_str()) {
                    Ok(()) => {},
                    Err(e) => {
                        return Err(QueryError::Db(e));
                    },
                }
                proof {
                    if goes {
                        crate::storage::lemma_same_contents_trans(db0, db_a, *db);
                    }
                    if lands {
                        crate::storage::lemma_same_contents_trans(db0, db_a, *db);
                        crate::storage::lemma_same_contents_single_leaf(db0, *db);
                    }
                }
                let mut k: Vec<char> = Vec::new();
                push_str(&mut k, t_name.as_str());
                push_str(&mut k, ":");
                push_str(&mut k, pk.as_str());
                let key = chars_bytes(k.as_slice());
                let bytes = encode_values_mvcc(new_row.as_slice(), active_tx, 0);
                proof {
                    assert(key@ == encode_utf8(tv + ":"@ + pk_val@));
                    assert(strings_view(new_row@) =~= strings_view(row@).update(col_idx as int, value@));
                }
                if self.in_transaction {
                    let ghost mid = self.pending_map();
                    self.write_buffer.insert(key, Some(bytes));
                    proof {
                        let m1 = crate::sql::volcano::matching(rows_view(rows@).take(i + 1), 0, pk_val@);
                        assert(m1.len() > 0 && m1.last() == strings_view(row@));
                        let exp = updated_pending(e0.pending_map(), tv, pk_val@, m1, col_idx as int, value@, e0.tx_id());
                        assert forall|k2: Seq<u8>| !is_index_entry_of(k2, tv) implies (#[trigger] self.pending_map().dom().contains(k2))
                            == exp.dom().contains(k2) && (exp.dom().contains(k2) ==> self.pending_map()[k2] == exp[k2]) by {
                            if k2 != key@ {
                                assert(mid.dom().contains(k2) == before.dom().contains(k2));
                                assert(before.dom().contains(k2) == was.dom().contains(k2));
                            }
                        }
                    }
                } else {
                    match db.put(key.as_slice(), bytes.as_slice()) {
                        Ok(()) => {},
                        Err(e) => {
                            return Err(QueryError::Db(e));
                        },
                    }
                }
                count += 1;
                proof {
                    assert(self.in_transaction ==> same_but_index(
                        updated_pending(
                            e0.pending_map(),
                            tv,
                            pk_val@,
                            crate::sql::volcano::matching(rows_view(rows@).take(i + 1), 0, pk_val@),
                            col_idx as int,
                            value@,
                            e0.tx_id(),
                        ),
                        self.pending_map(),
                        tv,
                    ));
                }
            } else {
                proof {
                    assert(self.in_transaction ==> same_but_index(
                        updated_pending(
                            e0.pending_map(),
                            tv,
                            pk_val@,
                            crate::sql::volcano::matching(rows_view(rows@).take(i + 1), 0, pk_val@),
                            col_idx as int,
                            value@,
                            e0.tx_id(),
                        ),
                        self.pending_map(),
                        tv,
                    ));
                }
            }
            i += 1;
        }
        proof {
            assert(rows_view(rows@).take(i as int) =~= rows_view(rows@));
            if seen_columns(e0, db0, tv) is Some {
                assert(seen_columns(e0, db0, tv) == Some(strings_view(col_names@)));
            }
        }
        Ok(count_reply(count, "updated"))
    }

    /// `DELETE ... WHERE <key> = pk_val`: deletes each row whose first value is `pk_val`
    /// (pending inside a transaction, in the database outside one), after removing it from
    /// the table's secondary indexes.
    #[verifier::spinoff_prover]
    #[verifier::rlimit(100)]
    pub fn delete(&mut self, db: &mut Database, table_name: &str, pk_val: &str) -> (r: Result<String, QueryError>)
        requires
            old(db).wf(),
            old(self).wf(),
        ensures
            final(db).wf(),
            final(self).wf(),
            final(self).in_tx() == old(self).in_tx(),
            final(self).tx_id() == old(self).tx_id(),
            !old(self).in_tx() ==> *final(self) == *old(self),
            r matches Ok(m) ==> exists|n: nat| m@ == count_message(n, "deleted"@),
            r matches Ok(m) ==> match seen_rows(*old(self), *old(db), qualified_name(table_name@).1) {
                Some(Ok(rows)) => m@ == count_message(crate::sql::volcano::matching(rows, 0, pk_val@).len(), "deleted"@),
                _ => true,
            },
            table_missing(*old(self), *old(db), qualified_name(table_name@).1)
                ==> (r matches Err(QueryError::NoSuchTable { name }) && name@ == table_name@),
            old(self).in_tx() && r is Ok ==> match seen_rows(*old(self), *old(db), qualified_name(table_name@).1) {
                Some(Ok(rows)) => same_but_index(
                    deleted_pending(old(self).pending_map(), qualified_name(table_name@).1, pk_val@, crate::sql::volcano::matching(rows, 0, pk_val@).len() > 0),
                    final(self).pending_map(),
                    qualified_name(table_name@).1,
                ),
                _ => true,
            },
            query_log_full_only_at_limit(r, *final(db)),
            delete_lands(*old(self), *old(db), table_name@) ==> r is Ok && (crate::sql::volcano::matching(
                seen_rows(*old(self), *old(db), qualified_name(table_name@).1)->0->Ok_0,
                0,
                pk_val@,
            ).len() > 0 ==> stored_value(*final(db), encode_utf8(qualified_name(table_name@).1 + ":"@ + pk_val@)) == Some(None::<Seq<u8>>)),
    {
        let (_schema_name, t_name) = parse_qualified_table_name(table_name);
        let ghost dl = delete_lands(*old(self), *old(db), table_name@);
        let ghost lsn0 = old(db).log().spec_lsn();
        let ghost ip = encode_utf8("__index__:"@ + t_name@ + ":"@);
        let ghost kk = encode_utf8(t_name@ + ":"@ + pk_val@);
        let col_names = match self.described_columns(db, t_name.as_str(), table_name) {
            Ok(c) => c,
            Err(e) => {
                return Err(e);
            },
        };
        let ghost db0 = *old(db);
        let ghost e0 = *old(self);
        let ghost tv = t_name@;
        let ghost seen = seen_rows(e0, db0, tv);
        proof {
            if seen_rows(e0, db0, tv) is Some {
                lemma_seen_rows_kept(e0, db0, *db, tv);
            }
        }
        let ghost db_d = *db;
        let rows = match self.table_rows(db, t_name.as_str()) {
            Ok(rs) => rs,
            Err(e) => {
                return Err(e);
            },
        };
        proof {
            if dl {
                crate::storage::lemma_same_contents_single_leaf(db0, db_d);
                crate::storage::lemma_same_contents_single_leaf(db_d, *db);
                assert(rows_view(rows@).take(0) =~= Seq::<RowView>::empty());
                assert(Database::leaf_contents(*db) == Database::leaf_contents(db0));
            }
        }
        let pk_chars = chars_of(pk_val);
        let mut count: usize = 0;
        let mut i: usize = 0;
        while i < rows.len()
            invariant
                dl == delete_lands(*old(self), *old(db), table_name@),
                lsn0 == old(db).log().spec_lsn(),
                ip == encode_utf8("__index__:"@ + tv + ":"@),
                kk == encode_utf8(tv + ":"@ + pk_val@),
                dl ==> (seen matches Some(Ok(rs0)) && (db0.logging() ==> lsn0 + rs0.len() < u64::MAX)),
                dl ==> Database::single_leaf(*db) && db.logging() == db0.logging()
                    && (db.logging() ==> db.log().spec_lsn() <= lsn0 + i)
                    && (forall|k: Seq<u8>| #[trigger] Database::leaf_contents(*db).dom().contains(k) ==> !crate::storage::tree::has_prefix(k, ip))
                    && (crate::sql::volcano::matching(rows_view(rows@).take(i as int), 0, pk_val@).len() > 0 ==> !Database::leaf_contents(*db).dom().contains(kk)),
                !table_missing(*old(self), *old(db), qualified_name(table_name@).1),
                db.wf(),
                self.wf(),
                self.in_transaction == old(self).in_transaction,
                self.current_tx_id == old(self).current_tx_id,
                !self.in_transaction ==> *self == *old(self),
                i <= rows@.len(),
                count <= i,
                seen matches Some(Ok(rs)) ==> rows_view(rows@) == rs,
                pk_chars@ == pk_val@,
                count == crate::sql::volcano::matching(rows_view(rows@).take(i as int), 0, pk_val@).len(),
                tv == t_name@,
                self.in_transaction ==> same_but_index(
                    deleted_pending(e0.pending_map(), tv, pk_val@, crate::sql::volcano::matching(rows_view(rows@).take(i as int), 0, pk_val@).len() > 0),
                    self.pending_map(),
                    tv,
                ),
            decreases rows@.len() - i,
        {
            let row = &rows[i];
            proof {
                crate::sql::volcano::lemma_matching_step(rows_view(rows@), i as int, 0, pk_val@);
                assert(rows_view(rows@)[i as int] == strings_view(row@));
                if row@.len() > 0 {
                    assert(strings_view(row@)[0] == row@[0]@);
                }
            }
            if row.len() > 0 && chars_eq(chars_of(row[0].as_str()).as_slice(), pk_chars.as_slice()) {
                let pk = row[0].clone();
                let ghost before = self.pending_map();
                let ghost was = deleted_pending(e0.pending_map(), tv, pk_val@, crate::sql::volcano::matching(rows_view(rows@).take(i as int), 0, pk_val@).len() > 0);
                let ghost db_r = *db;
                proof {
                    if dl {
                        lemma_no_index_defs(db_r, tv);
                    }
                }
                match remove_all_secondary_indexes(db, &mut self.write_buffer, self.in_transaction, t_name.as_str(), col_names.as_slice(), row.as_slice(), pk.as_str()) {
                    Ok(()) => {},
                    Err(e) => {
                        return Err(QueryError::Db(e));
                    },
                }
                proof {
                    if dl {
                        crate::storage::lemma_same_contents_single_leaf(db_r, *db);
                        assert(Database::leaf_contents(*db) == Database::leaf_contents(db_r));
                    }
                }
                let mut k: Vec<char> = Vec::new();
                push_str(&mut k, t_name.as_str());
                push_str(&mut k, ":");
                push_str(&mut k, pk.as_str());
                let key = chars_bytes(k.as_slice());
                proof {
                    assert(key@ == encode_utf8(tv + ":"@ + pk_val@));
                }
                if self.in_transaction {
                    let ghost mid = self.pending_map();
                    self.write_buffer.insert(key, None);
                    proof {
                        let exp = deleted_pending(e0.pending_map(), tv, pk_val@, true);
                        assert(crate::sql::volcano::matching(rows_view(rows@).take(i + 1), 0, pk_val@).len() > 0);
                        assert forall|k2: Seq<u8>| !is_index_entry_of(k2, tv) implies (#[trigger] self.pending_map().dom().contains(k2))
                            == exp.dom().contains(k2) && (exp.dom().contains(k2) ==> self.pending_map()[k2] == exp[k2]) by {
                            if k2 != key@ {
                                assert(mid.dom().contains(k2) == before.dom().contains(k2));
                                assert(before.dom().contains(k2) == was.dom().contains(k2));
                            }
                        }
                    }
                } else {
                    let ghost db_s = *db;
                    proof {
                        if dl {
                            assert(rows_view(rows@).len() == rows@.len());
                        }
                    }
                    match db.delete(key.as_slice()) {
                        Ok(()) => {},
                        Err(e) => {
                            return Err(QueryError::Db(e));
                        },
                    }
                    proof {
                        if dl {
                            lemma_removed_no_index(db_s, *db, ip, kk);
                        }
                    }
                }
                count += 1;
                proof {
                    assert(self.in_transaction ==> same_but_index(deleted_pending(e0.pending_map(), tv, pk_val@, crate::sql::volcano::matching(rows_view(rows@).take(i + 1), 0, pk_val@).len() > 0), self.pending_map(), tv));
                }
            } else {
                proof {
                    assert(self.in_transaction ==> same_but_index(deleted_pending(e0.pending_map(), tv, pk_val@, crate::sql::volcano::matching(rows_view(rows@).take(i + 1), 0, pk_val@).len() > 0), self.pending_map(), tv));
                }
            }
            i += 1;
        }
        proof {
            assert(rows_view(rows@).take(i as int) =~= rows_view(rows@));
            if dl {
                crate::storage::tree::lemma_leaf_root_lookup(db.tree(), Database::root_records(*db));
            }
        }
        Ok(count_reply(count, "deleted"))
    }

    /// `DROP TABLE`: deletes the table's index registrations, index entries and catalog entry
    /// from the database, and its legacy description and rows (pending inside a transaction,
    /// from the database outside one).
    pub fn drop_table(&mut self, db: &mut Database, table_name: &str) -> (r: Result<String, QueryError>)
        requires
            old(db).wf(),
            old(self).wf(),
        ensures
            final(db).wf(),
            final(self).wf(),
            final(self).in_tx() == old(self).in_tx(),
            final(self).tx_id() == old(self).tx_id(),
            !old(self).in_tx() ==> *final(self) == *old(self),
            r matches Ok(m) ==> m@ == "Query OK, table '"@ + table_name@ + "' dropped."@,
            table_missing(*old(self), *old(db), qualified_name(table_name@).1)
                ==> (r matches Err(QueryError::NoSuchTable { name }) && name@ == table_name@),
            old(self).in_tx() && r is Ok && old(db).tree().pool().coherent() ==> match scan_result(
                pages_of(old(db).tree().pool()),
                old(db).tree().root(),
                encode_utf8(qualified_name(table_name@).1 + ":"@),
                old(db).tree().pool().store().len(),
            ) {
                Some(ps) => final(self).pending_map() == deletes_pending(
                    old(self).pending_map().insert(encode_utf8("__schema__:"@ + qualified_name(table_name@).1), None),
                    crate::sql::catalog::pair_keys(ps),
                ),
                None => true,
            },
            query_log_full_only_at_limit(r, *final(db)),
            table_present(*old(self), *old(db), qualified_name(table_name@).1) && Database::single_leaf(*old(db)) && !old(db).logging()
                ==> r is Ok && (!old(self).in_tx() ==> stored_value(*final(db), encode_utf8("__schema__:"@ + qualified_name(table_name@).1)) == Some(None::<Seq<u8>>)),
    {
        let (schema_name, t_name) = parse_qualified_table_name(table_name);
        let ghost db0 = *old(db);
        let ghost prefix = encode_utf8(t_name@ + ":"@);
        let ghost goes = table_present(*old(self), *old(db), t_name@) && Database::single_leaf(db0) && !db0.logging();
        match get_schema_bytes(db, &self.write_buffer, self.in_transaction, t_name.as_str()) {
            Ok(Some(_)) => {},
            Ok(None) => {
                return Err(QueryError::NoSuchTable { name: text(table_name) });
            },
            Err(e) => {
                return Err(QueryError::Db(e));
            },
        }
        proof {
            reveal_strlit("");
            assert(""@ + t_name@ =~= t_name@);
            if db0.tree().pool().coherent() && scan_result(pages_of(db0.tree().pool()), db0.tree().root(), prefix, db0.tree().pool().store().len()) is Some {
                crate::storage::lemma_same_contents_scan(db0, *db, prefix);
            }
            if goes {
                crate::storage::lemma_same_contents_single_leaf(db0, *db);
                crate::storage::tree::lemma_leaf_root_scan(db.tree(), Database::root_records(*db), encode_utf8(""@ + t_name@ + ":"@));
            }
        }
        let records = match scan_under(db, "", t_name.as_str()) {
            Ok(rs) => rs,
            Err(e) => {
                return Err(QueryError::Db(e));
            },
        };
        let ghost keys = crate::sql::catalog::pair_keys(pairs_view(records@));
        proof {
            if goes {
                crate::storage::lemma_same_contents_single_leaf(db0, *db);
                crate::storage::tree::lemma_leaf_root_scan(db.tree(), Database::root_records(*db), encode_utf8("__index__:"@ + t_name@ + ":"@));
            }
        }
        let indices = match scan_under(db, "__index__:", t_name.as_str()) {
            Ok(rs) => rs,
            Err(e) => {
                return Err(QueryError::Db(e));
            },
        };
        proof {
            if goes {
                crate::storage::lemma_same_contents_single_leaf(db0, *db);
            }
        }
        match delete_keys(db, &indices) {
            Ok(()) => {},
            Err(e) => {
                return Err(QueryError::Db(e));
            },
        }
        proof {
            if goes {
                crate::storage::tree::lemma_leaf_root_scan(db.tree(), Database::root_records(*db), encode_utf8("__secidx__:"@ + t_name@ + ":"@));
            }
        }
        let entries = match scan_under(db, "__secidx__:", t_name.as_str()) {
            Ok(rs) => rs,
            Err(e) => {
                return Err(QueryError::Db(e));
            },
        };
        match delete_keys(db, &entries) {
            Ok(()) => {},
            Err(e) => {
                return Err(QueryError::Db(e));
            },
        }
        let catalog_key = CatalogManager::table_key(schema_name.as_str(), t_name.as_str());
        match db.delete(str_bytes(catalog_key.as_str()).as_slice()) {
            Ok(()) => {},
            Err(e) => {
                return Err(QueryError::Db(e));
            },
        }
        let mut sk: Vec<char> = Vec::new();
        push_str(&mut sk, "__schema__:");
        push_str(&mut sk, t_name.as_str());
        let schema_key = chars_bytes(sk.as_slice());
        if self.in_transaction {
            self.write_buffer.insert(schema_key, None);
            let ghost p1 = self.pending_map();
            let mut i: usize = 0;
            proof {
                assert(keys.take(0) =~= Seq::<Seq<u8>>::empty());
            }
            while i < records.len()
                invariant
                    self.wf(),
                    self.in_transaction,
                    self.current_tx_id == old(self).current_tx_id,
                    i <= records@.len(),
                    keys == crate::sql::catalog::pair_keys(pairs_view(records@)),
                    self.pending_map() == deletes_pending(p1, keys.take(i as int)),
                decreases records@.len() - i,
            {
                let k = crate::codec::copy_bytes(records[i].0.as_slice());
                proof {
                    assert(keys.take(i + 1).drop_last() =~= keys.take(i as int));
                    assert(keys[i as int] == records@[i as int].0@);
                }
                self.write_buffer.insert(k, None);
                i += 1;
            }
            proof {
                assert(keys.take(i as int) =~= keys);
            }
        } else {
            match db.delete(schema_key.as_slice()) {
                Ok(()) => {},
                Err(e) => {
                    return Err(QueryError::Db(e));
                },
            }
            match delete_keys(db, &records) {
                Ok(()) => {},
                Err(e) => {
                    return Err(QueryError::Db(e));
                },
            }
        }
        let mut out: Vec<char> = Vec::new();
        push_str(&mut out, "Query OK, table '");
        push_str(&mut out, table_name);
        push_str(&mut out, "' dropped.");
        Ok(string_of(out.as_slice()))
    }

    /// `ROLLBACK`: logs the rollback and drops the pending writes.
    pub fn rollback(&mut self, db: &mut Database) -> (r: Result<String, QueryError>)
        requires
            old(self).wf(),
            old(db).wf(),
        ensures
            final(self).wf(),
            final(db).wf(),
            final(db).tree() == old(db).tree(),
            !old(self).in_tx() ==> r == Err::<String, QueryError>(QueryError::NoTransaction)
                && *final(self) == *old(self) && *final(db) == *old(db),
            old(self).in_tx() && old(db).logging() && old(db).log().spec_lsn() == u64::MAX
                ==> r == Err::<String, QueryError>(QueryError::Db(DbError::LogFull)) && *final(self) == *old(self),
            old(self).in_tx() && !(old(db).logging() && old(db).log().spec_lsn() == u64::MAX)
                ==> (r matches Ok(m) && m@ == "Query OK, transaction rolled back."@)
                    && !final(self).in_tx() && final(self).pending() == Seq::<WriteView>::empty(),
            query_log_full_only_at_limit(r, *final(db)),
    {
        if !self.in_transaction {
            return Err(QueryError::NoTransaction);
        }
        match db.rollback_tx(self.current_tx_id) {
            Ok(()) => {},
            Err(e) => {
                return Err(QueryError::Db(e));
            },
        }
        self.write_buffer.clear();
        self.in_transaction = false;
        self.current_tx_id = 0;
        Ok(text("Query OK, transaction rolled back."))
    }
}

} // verus!
