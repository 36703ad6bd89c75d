//! The catalog: schema namespaces and table names, kept as keys of the database.
//!
//! A schema is registered under `__catalog__:schema:<schema>`, a table under
//! `__catalog__:table:<schema>:<table>` (both lower-cased); tables created before schemas
//! existed are found under `__schema__:<table>` in the default schema.
use crate::network::pgwire::{string_from_utf8_lossy, utf8_lossy};
use crate::storage::tree::{pages_of, scan_result, pairs_view, PairView};
use crate::storage::{Database, DbError};
use crate::sql::rows::string_from_utf8;
use crate::sql::types::{data_type_from_chars, data_type_named, sql_name, ColumnDef, DataType, TableSchema};
use crate::text::{split_char, split_char_exec, tokens, tokens_exec, strings_view, vstrings, 
    chars_eq, chars_eq_ignore_case, chars_of, insert_sorted_unique, lower, occurs_at, occurs_at_exec,
    strictly_sorted, string_of, subseq, to_unicode_lower, unicode_lower, unicode_upper, upper, sorted_names, lemma_sorted_names,
};
use vstd::prelude::*;

verus! {

/// The schema tables live in unless another is named.
pub const DEFAULT_SCHEMA: &'static str = "public";

pub open spec fn default_schema() -> Seq<char> {
    "public"@
}

/// The prefix of schema registration keys.
pub open spec fn schema_prefix() -> Seq<char> {
    "__catalog__:schema:"@
}

/// The prefix of the table keys of a schema.
pub open spec fn table_prefix(schema: Seq<char>) -> Seq<char> {
    "__catalog__:table:"@ + unicode_lower(schema) + ":"@
}

/// The prefix of legacy table keys.
pub open spec fn legacy_prefix() -> Seq<char> {
    "__schema__:"@
}

/// Errors of catalog changes.
#[derive(Debug, Clone, PartialEq, Eq)]
pub enum CatalogError {
    /// The schema is registered already.
    SchemaExists { name: String },
    /// The database failed.
    Db(DbError),
    /// A stored legacy description is not UTF-8.
    InvalidDescription,
}

/// The stored key registering a schema.
pub open spec fn schema_entry(schema_name: Seq<char>) -> Seq<u8> {
    vstd::utf8::encode_utf8(schema_prefix() + unicode_lower(schema_name))
}

/// Whether `t` is the description that the legacy text `raw` gives table `table`: the default
/// schema, and one column per comma-separated part, named and typed by it.
pub open spec fn is_legacy_schema(t: TableSchema, table: Seq<char>, raw: Seq<char>) -> bool {
    &&& t.schema_name@ == default_schema()
    &&& t.table_name@ == table
    &&& t.columns@.len() == split_char(raw, ',').len()
    &&& forall|i: int| 0 <= i < t.columns@.len() ==> #[trigger] t.columns@[i] == legacy_column(split_char(raw, ',')[i], t.columns@[i].name)
    &&& forall|i: int| 0 <= i < t.columns@.len() ==> (#[trigger] t.columns@[i]).name@ == legacy_column_name(split_char(raw, ',')[i])
}

/// The key of a table's catalog entry.
pub open spec fn table_entry(schema_name: Seq<char>, table_name: Seq<char>) -> Seq<u8> {
    vstd::utf8::encode_utf8(table_prefix(schema_name) + unicode_lower(table_name))
}

/// What registering the default schema does to `before`, giving `after`: nothing but reads
/// when it is registered; else its registration is logged (with the log enabled) and, where
/// the tree takes it in place, can be read back. Nothing is said where the database cannot
/// be read cleanly.
pub open spec fn default_registered(before: Database, after: Database) -> bool {
    let k = schema_entry(default_schema());
    let v = vstd::utf8::encode_utf8("registered"@);
    match crate::sql::executor::stored_value(before, k) {
        Some(Some(_)) => Database::same_contents(before, after),
        Some(None) => {
            &&& (before.logging() && before.log().spec_lsn() < u64::MAX ==> after.log().spec_lsn() == before.log().spec_lsn() + 1
                && after.log().spec_pending() == before.log().spec_pending() + crate::wal::frame_bytes(
                crate::wal::FrameView { lsn: (before.log().spec_lsn() + 1) as u64, tx_id: 0, op: 1, payload: crate::wal::put_payload(k, v) },
            ))
            &&& (!before.logging() ==> after.log() == before.log())
            &&& (crate::storage::tree::inline_put_fits(before.tree(), k, v) && !(before.logging() && before.log().spec_lsn() == u64::MAX)
                ==> after.tree().lookup(k) == Some(Some(v)))
        },
        None => true,
    }
}

/// A table description as the catalog holds it.
pub enum StoredSchema {
    /// The serialized catalog entry, for the caller to decode.
    Serialized(Vec<u8>),
    /// The description a legacy entry gives.
    Legacy(TableSchema),
    /// No description.
    Missing,
}

/// The legacy text of one column: its name, a space and its type's name.
pub open spec fn column_text(c: ColumnDef) -> Seq<char> {
    c.name@ + " "@ + sql_name(c.data_type)
}

/// The legacy description of columns, joined with `,`.
pub open spec fn legacy_text(cols: Seq<ColumnDef>) -> Seq<char>
    decreases cols.len(),
{
    if cols.len() == 0 {
        Seq::empty()
    } else if cols.len() == 1 {
        column_text(cols[0])
    } else {
        legacy_text(cols.drop_last()) + seq![','] + column_text(cols.last())
    }
}

/// The column name a part of a legacy description gives: its first word, or `col`.
pub open spec fn legacy_column_name(part: Seq<char>) -> Seq<char> {
    if tokens(part).len() > 0 {
        tokens(part)[0]
    } else {
        "col"@
    }
}

/// The column a part of a legacy description gives (named `name`).
pub open spec fn legacy_column(part: Seq<char>, name: String) -> ColumnDef {
    ColumnDef {
        name,
        data_type: if tokens(part).len() > 1 {
            match data_type_named(unicode_upper(tokens(part)[1])) {
                Some(t) => t,
                None => DataType::Text,
            }
        } else {
            DataType::Text
        },
        is_nullable: true,
        is_primary_key: false,
        is_unique: false,
        default_value: None,
    }
}

/// A row of `information_schema.columns`.
pub open spec fn column_row(schema_name: Seq<char>, table_name: Seq<char>, i: int, c: ColumnDef) -> Seq<Seq<char>> {
    seq![
        "magnumdb"@,
        schema_name,
        table_name,
        c.name@,
        crate::network::pgwire::decimal((i + 1) as nat),
        sql_name(c.data_type),
        if c.is_nullable { "YES"@ } else { "NO"@ },
        match c.default_value {
            Some(d) => d@,
            None => "NULL"@,
        },
    ]
}

/// Copies a string.
fn text_copy(s: &str) -> (r: String)
    ensures
        r@ == s@,
{
    string_of(chars_of(s).as_slice())
}

/// Manages schemas (namespaces) and table names.
pub struct CatalogManager;

fn concat_chars(a: &[char], b: &[char]) -> (r: Vec<char>)
    ensures
        r@ == a@ + b@,
{
    let mut r: Vec<char> = Vec::new();
    let mut i: usize = 0;
    while i < a.len()
        invariant
            i <= a@.len(),
            r@ == a@.take(i as int),
        decreases a@.len() - i,
    {
        r.push(a[i]);
        i = i + 1;
        assert(r@ =~= a@.take(i as int));
    }
    let mut j: usize = 0;
    while j < b.len()
        invariant
            i == a@.len(),
            j <= b@.len(),
            r@ == a@ + b@.take(j as int),
        decreases b@.len() - j,
    {
        r.push(b[j]);
        j = j + 1;
        assert(r@ =~= a@ + b@.take(j as int));
    }
    assert(a@.take(i as int) =~= a@);
    assert(b@.take(j as int) =~= b@);
    r
}

/// The text after `prefix` when `s` starts with it.
pub open spec fn strip_prefix(s: Seq<char>, prefix: Seq<char>) -> Option<Seq<char>> {
    if occurs_at(s, prefix, 0) {
        Some(s.skip(prefix.len() as int))
    } else {
        None
    }
}

fn strip_prefix_exec(s: &[char], prefix: &[char]) -> (r: Option<Vec<char>>)
    ensures
        match strip_prefix(s@, prefix@) {
            Some(t) => r matches Some(v) && v@ == t,
            None => r is None,
        },
{
    if occurs_at_exec(s, prefix, 0) {
        let t = subseq(s, prefix.len(), s.len());
        assert(t@ =~= s@.skip(prefix@.len() as int));
        Some(t)
    } else {
        None
    }
}

/// The schema names that a sequence of registration keys names, and the default schema.
pub open spec fn schema_names(keys: Seq<Seq<u8>>) -> Set<Seq<char>> {
    Set::new(
        |n: Seq<char>|
            n == default_schema() || exists|i: int|
                0 <= i < keys.len() && strip_prefix(utf8_lossy(#[trigger] keys[i]), schema_prefix()) == Some(n),
    )
}



fn strings_of(v: &Vec<Vec<char>>) -> (r: Vec<String>)
    ensures
        strings_view(r@) == vstrings(v@),
{
    let mut out: Vec<String> = Vec::new();
    let mut i: usize = 0;
    while i < v.len()
        invariant
            i <= v@.len(),
            strings_view(out@) == vstrings(v@).take(i as int),
        decreases v@.len() - i,
    {
        let ghost prev = out@;
        let st = string_of(v[i].as_slice());
        assert(st@ == v@[i as int]@);
        out.push(st);
        assert(strings_view(out@) =~= strings_view(prev).push(v@[i as int]@));
        i = i + 1;
        assert(strings_view(out@) =~= vstrings(v@).take(i as int));
    }
    assert(vstrings(v@).take(i as int) =~= vstrings(v@));
    out
}

impl CatalogManager {
    /// The key registering a schema.
    pub fn schema_key(schema_name: &str) -> (r: String)
        ensures
            r@ == schema_prefix() + unicode_lower(schema_name@),
    {
        let name = chars_of(schema_name);
        let low = to_unicode_lower(name.as_slice());
        let prefix = chars_of("__catalog__:schema:");
        string_of(concat_chars(prefix.as_slice(), low.as_slice()).as_slice())
    }

    /// The key holding a table's description.
    pub fn table_key(schema_name: &str, table_name: &str) -> (r: String)
        ensures
            r@ == table_prefix(schema_name@) + unicode_lower(table_name@),
    {
        let low_s = to_unicode_lower(chars_of(schema_name).as_slice());
        let low_t = to_unicode_lower(chars_of(table_name).as_slice());
        let p1 = concat_chars(chars_of("__catalog__:table:").as_slice(), low_s.as_slice());
        let p2 = concat_chars(p1.as_slice(), chars_of(":").as_slice());
        string_of(concat_chars(p2.as_slice(), low_t.as_slice()).as_slice())
    }

    /// The schema names that registration keys name, with the default schema, sorted and
    /// without repeats.
    pub fn schema_names_from_keys(keys: &Vec<Vec<u8>>) -> (r: Vec<String>)
        ensures
            strictly_sorted(strings_view(r@)),
            strings_view(r@).to_set() == schema_names(keys@.map_values(|k: Vec<u8>| k@)),
    {
        let ghost ks = keys@.map_values(|k: Vec<u8>| k@);
        let mut names: Vec<Vec<char>> = Vec::new();
        let public = chars_of(DEFAULT_SCHEMA);
        proof {
            assert(vstrings(names@) =~= Seq::<Seq<char>>::empty());
        }
        insert_sorted_unique(&mut names, public);
        let prefix = chars_of("__catalog__:schema:");
        let mut i: usize = 0;
        while i < keys.len()
            invariant
                ks == keys@.map_values(|k: Vec<u8>| k@),
                prefix@ == schema_prefix(),
                i <= keys@.len(),
                strictly_sorted(vstrings(names@)),
                vstrings(names@).to_set() == Set::new(
                    |n: Seq<char>|
                        n == default_schema() || exists|j: int|
                            0 <= j < i && strip_prefix(utf8_lossy(#[trigger] ks[j]), schema_prefix()) == Some(n),
                ),
            decreases keys@.len() - i,
        {
            let ghost before = vstrings(names@).to_set();
            let key_str = string_from_utf8_lossy(keys[i].as_slice());
            let key_chars = chars_of(key_str.as_str());
            match strip_prefix_exec(key_chars.as_slice(), prefix.as_slice()) {
                Some(name) => {
                    let ghost n = name@;
                    insert_sorted_unique(&mut names, name);
                    proof {
                        assert(vstrings(names@).to_set() =~= Set::new(
                            |m: Seq<char>|
                                m == default_schema() || exists|j: int|
                                    0 <= j < i + 1 && strip_prefix(utf8_lossy(#[trigger] ks[j]), schema_prefix()) == Some(m),
                        )) by {
                            assert forall|m: Seq<char>| #[trigger] vstrings(names@).to_set().contains(m) <==> (m == default_schema() || exists|j: int|
                                    0 <= j < i + 1 && strip_prefix(utf8_lossy(#[trigger] ks[j]), schema_prefix()) == Some(m)) by {
                                if m == n {
                                    assert(strip_prefix(utf8_lossy(ks[i as int]), schema_prefix()) == Some(m));
                                }
                                if exists|j: int| 0 <= j < i + 1 && strip_prefix(utf8_lossy(#[trigger] ks[j]), schema_prefix()) == Some(m) {
                                    let j = choose|j: int| 0 <= j < i + 1 && strip_prefix(utf8_lossy(#[trigger] ks[j]), schema_prefix()) == Some(m);
                                    if j < i {
                                        assert(before.contains(m));
                                    }
                                }
                            }
                        }
                    }
                },
                None => {
                    proof {
                        assert(vstrings(names@).to_set() =~= Set::new(
                            |m: Seq<char>|
                                m == default_schema() || exists|j: int|
                                    0 <= j < i + 1 && strip_prefix(utf8_lossy(#[trigger] ks[j]), schema_prefix()) == Some(m),
                        )) by {
                            assert forall|m: Seq<char>| #[trigger] vstrings(names@).to_set().contains(m) <==> (m == default_schema() || exists|j: int|
                                    0 <= j < i + 1 && strip_prefix(utf8_lossy(#[trigger] ks[j]), schema_prefix()) == Some(m)) by {
                                if exists|j: int| 0 <= j < i + 1 && strip_prefix(utf8_lossy(#[trigger] ks[j]), schema_prefix()) == Some(m) {
                                    let j = choose|j: int| 0 <= j < i + 1 && strip_prefix(utf8_lossy(#[trigger] ks[j]), schema_prefix()) == Some(m);
                                    if j < i {
                                        assert(before.contains(m));
                                    }
                                }
                            }
                        }
                    }
                },
            }
            i = i + 1;
        }
        proof {
            assert(vstrings(names@).to_set() =~= schema_names(ks));
        }
        strings_of(&names)
    }
}


/// The keys of the pairs of a scan.
pub open spec fn pair_keys(ps: Seq<PairView>) -> Seq<Seq<u8>> {
    ps.map_values(|p: PairView| p.0)
}

fn keys_of(pairs: &Vec<(Vec<u8>, Vec<u8>)>) -> (r: Vec<Vec<u8>>)
    ensures
        r@.map_values(|k: Vec<u8>| k@) == pair_keys(pairs_view(pairs@)),
{
    let mut out: Vec<Vec<u8>> = Vec::new();
    let mut i: usize = 0;
    while i < pairs.len()
        invariant
            i <= pairs@.len(),
            out@.map_values(|k: Vec<u8>| k@) == pair_keys(pairs_view(pairs@)).take(i as int),
        decreases pairs@.len() - i,
    {
        let ghost prev = out@;
        let k = crate::codec::copy_bytes(pairs[i].0.as_slice());
        out.push(k);
        assert(out@.map_values(|k: Vec<u8>| k@) =~= prev.map_values(|k: Vec<u8>| k@).push(pairs@[i as int].0@));
        i = i + 1;
        assert(out@.map_values(|k: Vec<u8>| k@) =~= pair_keys(pairs_view(pairs@)).take(i as int));
    }
    assert(pair_keys(pairs_view(pairs@)).take(i as int) =~= pair_keys(pairs_view(pairs@)));
    out
}

fn str_bytes(s: &str) -> (r: Vec<u8>)
    ensures
        r@ == vstd::utf8::encode_utf8(s@),
{
    crate::codec::copy_bytes(s.as_bytes())
}

impl CatalogManager {
    /// Registers the default schema unless it is registered already.
    pub fn init_default_schema(db: &mut Database) -> (r: Result<(), DbError>)
        requires
            old(db).wf(),
        ensures
            final(db).wf(),
            default_registered(*old(db), *final(db)),
            crate::sql::executor::stored_value(*old(db), schema_entry(default_schema())) == Some(None::<Seq<u8>>) ==> {
                &&& (old(db).logging() && old(db).log().spec_lsn() == u64::MAX ==> r == Err::<(), DbError>(DbError::LogFull))
                &&& (crate::storage::tree::inline_put_fits(old(db).tree(), schema_entry(default_schema()), vstd::utf8::encode_utf8("registered"@))
                    && !(old(db).logging() && old(db).log().spec_lsn() == u64::MAX) ==> r is Ok)
            },
            old(db).tree().pool().coherent() && old(db).tree().sorted_leaf_for(schema_entry(default_schema())) ==> match old(db).tree().lookup(schema_entry(default_schema())) {
                Some(Some(_)) => r is Ok,
                Some(None) => true,
                None => r is Err,
            },
    {
        let ghost db0 = *old(db);
        let key = Self::schema_key(DEFAULT_SCHEMA);
        let key_bytes = str_bytes(key.as_str());
        proof {
            reveal_strlit("public");
            assert(key_bytes@ == schema_entry(default_schema()));
        }
        let found = db.get(key_bytes.as_slice());
        proof {
            let k = schema_entry(default_schema());
            if crate::sql::executor::stored_value(db0, k) is Some {
                crate::storage::lemma_same_contents_lookup(db0, *db, k);
                if crate::storage::tree::inline_put_fits(db0.tree(), k, vstd::utf8::encode_utf8("registered"@)) {
                    crate::storage::lemma_same_contents_put_fits(db0, *db, k, vstd::utf8::encode_utf8("registered"@));
                }
            }
        }
        match found {
            Ok(Some(_)) => Ok(()),
            Ok(None) => {
                let value = str_bytes("registered");
                db.put(key_bytes.as_slice(), value.as_slice())
            },
            Err(e) => Err(e),
        }
    }

    /// Registers a schema; a schema registered already is refused.
    pub fn create_schema(db: &mut Database, schema_name: &str) -> (r: Result<(), CatalogError>)
        requires
            old(db).wf(),
        ensures
            final(db).wf(),
            r matches Err(e) ==> e is SchemaExists || e is Db,
            old(db).tree().pool().coherent() && old(db).tree().sorted_leaf_for(schema_entry(schema_name@)) ==> match old(db).tree().lookup(schema_entry(schema_name@)) {
                Some(Some(_)) => r matches Err(CatalogError::SchemaExists { name }) && name@ == schema_name@,
                Some(None) => !(r matches Err(CatalogError::SchemaExists { .. })),
                None => r matches Err(CatalogError::Db(_)),
            },
            crate::sql::executor::stored_value(*old(db), schema_entry(schema_name@)) == Some(None::<Seq<u8>>) ==> {
                &&& (old(db).logging() && old(db).log().spec_lsn() == u64::MAX ==> r == Err::<(), CatalogError>(CatalogError::Db(DbError::LogFull)))
                &&& (crate::storage::tree::inline_put_fits(old(db).tree(), schema_entry(schema_name@), vstd::utf8::encode_utf8("registered"@))
                    && !(old(db).logging() && old(db).log().spec_lsn() == u64::MAX)
                    ==> r is Ok && crate::sql::executor::stored_value(*final(db), schema_entry(schema_name@)) == Some(Some(vstd::utf8::encode_utf8("registered"@))))
            },
    {
        let ghost db0 = *old(db);
        let key = Self::schema_key(schema_name);
        let key_bytes = str_bytes(key.as_str());
        let found = db.get(key_bytes.as_slice());
        proof {
            reveal_strlit("registered");
            let k = schema_entry(schema_name@);
            assert(key_bytes@ == k);
            if crate::sql::executor::stored_value(db0, k) is Some {
                crate::storage::lemma_same_contents_lookup(db0, *db, k);
                if crate::storage::tree::inline_put_fits(db0.tree(), k, vstd::utf8::encode_utf8("registered"@)) {
                    crate::storage::lemma_same_contents_put_fits(db0, *db, k, vstd::utf8::encode_utf8("registered"@));
                }
            }
        }
        match found {
            Ok(Some(_)) => Err(CatalogError::SchemaExists { name: string_of(chars_of(schema_name).as_slice()) }),
            Ok(None) => {
                let value = str_bytes("registered");
                match db.put(key_bytes.as_slice(), value.as_slice()) {
                    Ok(()) => Ok(()),
                    Err(e) => Err(CatalogError::Db(e)),
                }
            },
            Err(e) => Err(CatalogError::Db(e)),
        }
    }

    /// Every registered schema and the default one, sorted.
    pub fn list_schemas(db: &mut Database) -> (r: Result<Vec<String>, DbError>)
        requires
            old(db).wf(),
        ensures
            final(db).wf(),
            Database::same_contents(*old(db), *final(db)),
            r matches Ok(v) ==> strictly_sorted(strings_view(v@)),
            match scan_result(pages_of(old(db).tree().pool()), old(db).tree().root(), vstd::utf8::encode_utf8(schema_prefix()), old(db).tree().pool().store().len()) {
                Some(ps) => r matches Ok(v) && strings_view(v@).to_set() == schema_names(pair_keys(ps)),
                None => r is Err,
            },
            crate::storage::log_full_only_at_limit(r, *final(db)),
    {
        proof {
            old(db).lemma_coherent();
        }
        let prefix = str_bytes("__catalog__:schema:");
        let records = match db.scan_prefix(prefix.as_slice()) {
            Ok(rs) => rs,
            Err(e) => {
                return Err(e);
            },
        };
        let keys = keys_of(&records);
        Ok(Self::schema_names_from_keys(&keys))
    }
}


/// The table names that catalog keys of a schema name.
pub open spec fn catalog_tables(schema: Seq<char>, keys: Seq<Seq<u8>>) -> Set<Seq<char>> {
    Set::new(
        |n: Seq<char>|
            exists|i: int|
                0 <= i < keys.len() && strip_prefix(utf8_lossy(#[trigger] keys[i]), table_prefix(schema)) == Some(n),
    )
}

/// The table names that legacy keys name.
pub open spec fn legacy_tables(keys: Seq<Seq<u8>>) -> Set<Seq<char>> {
    Set::new(
        |n: Seq<char>|
            exists|i: int| 0 <= i < keys.len() && strip_prefix(utf8_lossy(#[trigger] keys[i]), legacy_prefix()) == Some(n),
    )
}

/// `names` with the table names of the legacy `keys` added in order, each unless a name that
/// equals it ignoring ASCII case is there already.
pub open spec fn with_legacy(names: Set<Seq<char>>, keys: Seq<Seq<u8>>) -> Set<Seq<char>>
    decreases keys.len(),
{
    if keys.len() == 0 {
        names
    } else {
        let prev = with_legacy(names, keys.drop_last());
        match strip_prefix(utf8_lossy(keys.last()), legacy_prefix()) {
            Some(t) => if exists|n: Seq<char>| #[trigger] prev.contains(n) && upper(n) == upper(t) {
                prev
            } else {
                prev.insert(t)
            },
            None => prev,
        }
    }
}

/// The tables of schema `s` that `db` lists, when it can be scanned cleanly: the names under
/// the schema's catalog keys and, for the default schema, the legacy names (see
/// `with_legacy`).
pub open spec fn listed_tables(db: Database, s: Seq<char>) -> Option<Set<Seq<char>>> {
    let view = pages_of(db.tree().pool());
    let fuel = db.tree().pool().store().len();
    if db.tree().pool().coherent() {
        match scan_result(view, db.tree().root(), vstd::utf8::encode_utf8(table_prefix(s)), fuel) {
            None => None,
            Some(ps) => if upper(s) == upper(default_schema()) {
                match scan_result(view, db.tree().root(), vstd::utf8::encode_utf8(legacy_prefix()), fuel) {
                    None => None,
                    Some(ls) => Some(with_legacy(catalog_tables(s, pair_keys(ps)), pair_keys(ls))),
                }
            } else {
                Some(catalog_tables(s, pair_keys(ps)))
            },
        }
    } else {
        None
    }
}

/// A database that holds what another held lists the tables the other listed.
proof fn lemma_listed_tables_kept(before: Database, after: Database, s: Seq<char>)
    requires
        Database::same_contents(before, after),
        listed_tables(before, s) is Some,
    ensures
        listed_tables(after, s) == listed_tables(before, s),
{
    crate::storage::lemma_same_contents_scan(before, after, vstd::utf8::encode_utf8(table_prefix(s)));
    if upper(s) == upper(default_schema()) {
        crate::storage::lemma_same_contents_scan(before, after, vstd::utf8::encode_utf8(legacy_prefix()));
    }
}

/// The rows of `information_schema.tables` for one schema and its tables, in order.
pub open spec fn schema_rows(s: Seq<char>, tables: Seq<Seq<char>>) -> Seq<Seq<Seq<char>>> {
    tables.map_values(|t: Seq<char>| seq!["magnumdb"@, s, t, "BASE TABLE"@])
}

/// The rows of `information_schema.tables` for `schemas` in order, each with its tables in
/// sorted order, as `db` lists them; `None` when a list cannot be read cleanly.
pub open spec fn info_rows(db: Database, schemas: Seq<Seq<char>>) -> Option<Seq<Seq<Seq<char>>>>
    decreases schemas.len(),
{
    if schemas.len() == 0 {
        Some(Seq::empty())
    } else {
        match (info_rows(db, schemas.drop_last()), listed_tables(db, schemas.last())) {
            (Some(rows), Some(ts)) => Some(rows + schema_rows(schemas.last(), sorted_names(ts))),
            _ => None,
        }
    }
}

/// Rows that could not be read for some schemas cannot be read for more.
proof fn lemma_info_rows_none(db: Database, schemas: Seq<Seq<char>>, i: int)
    requires
        0 <= i <= schemas.len(),
        info_rows(db, schemas.take(i)) is None,
    ensures
        info_rows(db, schemas) is None,
    decreases schemas.len() - i,
{
    if i < schemas.len() {
        assert(schemas.take(i + 1).drop_last() =~= schemas.take(i));
        lemma_info_rows_none(db, schemas, i + 1);
    } else {
        assert(schemas.take(i) =~= schemas);
    }
}

/// Whether some string of `v` equals `t` ignoring ASCII case.
fn contains_ignore_case(v: &Vec<Vec<char>>, t: &[char]) -> (r: bool)
    ensures
        r == exists|i: int| 0 <= i < v@.len() && upper(#[trigger] v@[i]@) == upper(t@),
{
    let mut i: usize = 0;
    while i < v.len()
        invariant
            i <= v@.len(),
            forall|j: int| 0 <= j < i ==> upper(#[trigger] v@[j]@) != upper(t@),
        decreases v@.len() - i,
    {
        if chars_eq_ignore_case(v[i].as_slice(), t) {
            return true;
        }
        i = i + 1;
    }
    false
}

impl CatalogManager {
    /// The tables of a schema from its catalog keys and, for the default schema, from the
    /// legacy keys whose table is not listed yet (ignoring case); sorted.
    pub fn table_names_from_keys(schema_name: &str, keys: &Vec<Vec<u8>>, legacy_keys: &Vec<Vec<u8>>) -> (r: Vec<String>)
        ensures
            strictly_sorted(strings_view(r@)),
            catalog_tables(schema_name@, keys@.map_values(|k: Vec<u8>| k@)).subset_of(strings_view(r@).to_set()),
            strings_view(r@).to_set().subset_of(
                catalog_tables(schema_name@, keys@.map_values(|k: Vec<u8>| k@)).union(legacy_tables(legacy_keys@.map_values(|k: Vec<u8>| k@))),
            ),
            upper(schema_name@) != upper(default_schema()) ==> strings_view(r@).to_set() == catalog_tables(schema_name@, keys@.map_values(|k: Vec<u8>| k@)),
            upper(schema_name@) == upper(default_schema()) ==> strings_view(r@).to_set() == with_legacy(
                catalog_tables(schema_name@, keys@.map_values(|k: Vec<u8>| k@)),
                legacy_keys@.map_values(|k: Vec<u8>| k@),
            ),
    {
        let ghost ks = keys@.map_values(|k: Vec<u8>| k@);
        let ghost ls = legacy_keys@.map_values(|k: Vec<u8>| k@);
        let ghost cat = catalog_tables(schema_name@, ks);
        let ghost leg = legacy_tables(ls);
        let name = chars_of(schema_name);
        let low = to_unicode_lower(name.as_slice());
        let p1 = concat_chars(chars_of("__catalog__:table:").as_slice(), low.as_slice());
        let prefix = concat_chars(p1.as_slice(), chars_of(":").as_slice());
        let mut tables: Vec<Vec<char>> = Vec::new();
        proof {
            assert(vstrings(tables@).to_set() =~= Set::<Seq<char>>::empty());
        }
        let mut i: usize = 0;
        while i < keys.len()
            invariant
                ks == keys@.map_values(|k: Vec<u8>| k@),
                cat == catalog_tables(schema_name@, ks),
                prefix@ == table_prefix(schema_name@),
                i <= keys@.len(),
                strictly_sorted(vstrings(tables@)),
                vstrings(tables@).to_set() == Set::new(
                    |n: Seq<char>| exists|j: int| 0 <= j < i && strip_prefix(utf8_lossy(#[trigger] ks[j]), table_prefix(schema_name@)) == Some(n),
                ),
            decreases keys@.len() - i,
        {
            let ghost before = vstrings(tables@).to_set();
            let key_str = string_from_utf8_lossy(keys[i].as_slice());
            let key_chars = chars_of(key_str.as_str());
            let stripped = strip_prefix_exec(key_chars.as_slice(), prefix.as_slice());
            match stripped {
                Some(t) => {
                    let ghost n = t@;
                    insert_sorted_unique(&mut tables, t);
                    proof {
                        assert(vstrings(tables@).to_set() =~= Set::new(
                            |m: Seq<char>| exists|j: int| 0 <= j < i + 1 && strip_prefix(utf8_lossy(#[trigger] ks[j]), table_prefix(schema_name@)) == Some(m),
                        )) by {
                            assert forall|m: Seq<char>| #[trigger] vstrings(tables@).to_set().contains(m) <==> exists|j: int| 0 <= j < i + 1 && strip_prefix(utf8_lossy(#[trigger] ks[j]), table_prefix(schema_name@)) == Some(m) by {
                                if m == n {
                                    assert(strip_prefix(utf8_lossy(ks[i as int]), table_prefix(schema_name@)) == Some(m));
                                }
                                if exists|j: int| 0 <= j < i + 1 && strip_prefix(utf8_lossy(#[trigger] ks[j]), table_prefix(schema_name@)) == Some(m) {
                                    let j = choose|j: int| 0 <= j < i + 1 && strip_prefix(utf8_lossy(#[trigger] ks[j]), table_prefix(schema_name@)) == Some(m);
                                    if j < i {
                                        assert(before.contains(m));
                                    }
                                }
                            }
                        }
                    }
                },
                None => {
                    proof {
                        assert(vstrings(tables@).to_set() =~= Set::new(
                            |m: Seq<char>| exists|j: int| 0 <= j < i + 1 && strip_prefix(utf8_lossy(#[trigger] ks[j]), table_prefix(schema_name@)) == Some(m),
                        )) by {
                            assert forall|m: Seq<char>| #[trigger] vstrings(tables@).to_set().contains(m) <==> exists|j: int| 0 <= j < i + 1 && strip_prefix(utf8_lossy(#[trigger] ks[j]), table_prefix(schema_name@)) == Some(m) by {
                                if exists|j: int| 0 <= j < i + 1 && strip_prefix(utf8_lossy(#[trigger] ks[j]), table_prefix(schema_name@)) == Some(m) {
                                    let j = choose|j: int| 0 <= j < i + 1 && strip_prefix(utf8_lossy(#[trigger] ks[j]), table_prefix(schema_name@)) == Some(m);
                                    if j < i {
                                        assert(before.contains(m));
                                    }
                                }
                            }
                        }
                    }
                },
            }
            i = i + 1;
        }
        proof {
            assert(vstrings(tables@).to_set() =~= cat);
        }
        let public = chars_of(DEFAULT_SCHEMA);
        if chars_eq_ignore_case(name.as_slice(), public.as_slice()) {
            let lprefix = chars_of("__schema__:");
            let mut j: usize = 0;
            proof {
                assert(ls.take(0) =~= Seq::<Seq<u8>>::empty());
            }
            while j < legacy_keys.len()
                invariant
                    ls == legacy_keys@.map_values(|k: Vec<u8>| k@),
                    cat == catalog_tables(schema_name@, ks),
                    leg == legacy_tables(ls),
                    lprefix@ == legacy_prefix(),
                    j <= legacy_keys@.len(),
                    strictly_sorted(vstrings(tables@)),
                    cat.subset_of(vstrings(tables@).to_set()),
                    vstrings(tables@).to_set().subset_of(cat.union(leg)),
                    vstrings(tables@).to_set() == with_legacy(cat, ls.take(j as int)),
                decreases legacy_keys@.len() - j,
            {
                let ghost before = vstrings(tables@).to_set();
                proof {
                    assert(ls.take(j + 1).drop_last() =~= ls.take(j as int));
                    assert(ls.take(j + 1).last() == ls[j as int]);
                }
                let key_str = string_from_utf8_lossy(legacy_keys[j].as_slice());
                let key_chars = chars_of(key_str.as_str());
                match strip_prefix_exec(key_chars.as_slice(), lprefix.as_slice()) {
                    Some(t) => {
                        let found = contains_ignore_case(&tables, t.as_slice());
                        proof {
                            if found {
                                let i0 = choose|i: int| 0 <= i < tables@.len() && upper(#[trigger] tables@[i]@) == upper(t@);
                                assert(vstrings(tables@)[i0] == tables@[i0]@);
                                assert(before.contains(tables@[i0]@));
                            } else {
                                assert forall|n: Seq<char>| #[trigger] before.contains(n) implies upper(n) != upper(t@) by {
                                    let i0 = choose|i: int| 0 <= i < vstrings(tables@).len() && vstrings(tables@)[i] == n;
                                    assert(vstrings(tables@)[i0] == tables@[i0]@);
                                }
                            }
                        }
                        if !found {
                            let ghost n = t@;
                            insert_sorted_unique(&mut tables, t);
                            proof {
                                assert(strip_prefix(utf8_lossy(ls[j as int]), legacy_prefix()) == Some(n));
                                assert(leg.contains(n));
                                assert(vstrings(tables@).to_set().subset_of(cat.union(leg)));
                            }
                        }
                    },
                    None => {},
                }
                j = j + 1;
            }
            proof {
                assert(ls.take(j as int) =~= ls);
            }
        } else {
            proof {
                if upper(schema_name@) == upper(default_schema()) {
                    assert(upper(name@) == upper(public@));
                }
            }
        }
        strings_of(&tables)
    }

    /// The tables of a schema, sorted.
    pub fn list_tables(db: &mut Database, schema_name: &str) -> (r: Result<Vec<String>, DbError>)
        requires
            old(db).wf(),
        ensures
            final(db).wf(),
            Database::same_contents(*old(db), *final(db)),
            r matches Ok(v) ==> strictly_sorted(strings_view(v@)),
            match scan_result(
                pages_of(old(db).tree().pool()),
                old(db).tree().root(),
                vstd::utf8::encode_utf8(table_prefix(schema_name@)),
                old(db).tree().pool().store().len(),
            ) {
                None => r is Err,
                Some(ps) => if upper(schema_name@) == upper(default_schema()) {
                    match scan_result(
                        pages_of(old(db).tree().pool()),
                        old(db).tree().root(),
                        vstd::utf8::encode_utf8(legacy_prefix()),
                        old(db).tree().pool().store().len(),
                    ) {
                        None => true,
                        Some(ls) => r matches Ok(v) && strings_view(v@).to_set() == with_legacy(catalog_tables(schema_name@, pair_keys(ps)), pair_keys(ls)),
                    }
                } else {
                    r matches Ok(v) && strings_view(v@).to_set() == catalog_tables(schema_name@, pair_keys(ps))
                },
            },
            listed_tables(*old(db), schema_name@) matches Some(ts) ==> r matches Ok(v) && strings_view(v@).to_set() == ts,
            crate::storage::log_full_only_at_limit(r, *final(db)),
    {
        proof {
            old(db).lemma_coherent();
        }
        let ghost db0 = *old(db);
        let low = to_unicode_lower(chars_of(schema_name).as_slice());
        let p1 = concat_chars(chars_of("__catalog__:table:").as_slice(), low.as_slice());
        let prefix_chars = concat_chars(p1.as_slice(), chars_of(":").as_slice());
        let prefix = str_bytes(string_of(prefix_chars.as_slice()).as_str());
        let records = match db.scan_prefix(prefix.as_slice()) {
            Ok(rs) => rs,
            Err(e) => {
                return Err(e);
            },
        };
        let keys = keys_of(&records);
        let mut legacy_keys: Vec<Vec<u8>> = Vec::new();
        proof {
            assert(legacy_keys@.map_values(|k: Vec<u8>| k@) =~= Seq::<Seq<u8>>::empty());
        }
        if chars_eq_ignore_case(chars_of(schema_name).as_slice(), chars_of(DEFAULT_SCHEMA).as_slice()) {
            let lprefix = str_bytes("__schema__:");
            proof {
                let lp = vstd::utf8::encode_utf8(legacy_prefix());
                assert(lprefix@ == lp);
                if db0.tree().pool().coherent() && scan_result(pages_of(db0.tree().pool()), db0.tree().root(), lp, db0.tree().pool().store().len()) is Some {
                    crate::storage::lemma_same_contents_scan(db0, *db, lp);
                }
            }
            let legacy = match db.scan_prefix(lprefix.as_slice()) {
                Ok(rs) => rs,
                Err(e) => {
                    return Err(e);
                },
            };
            legacy_keys = keys_of(&legacy);
        }
        Ok(Self::table_names_from_keys(schema_name, &keys, &legacy_keys))
    }

    /// The rows of `information_schema.tables` for one schema: one per table, sorted.
    fn schema_table_rows(db: &mut Database, schema: &str) -> (r: Result<Vec<Vec<String>>, DbError>)
        requires
            old(db).wf(),
        ensures
            final(db).wf(),
            Database::same_contents(*old(db), *final(db)),
            r matches Ok(rows) ==> forall|i: int| 0 <= i < rows@.len() ==> (#[trigger] rows@[i])@.len() == 4
                && rows@[i]@[0]@ == "magnumdb"@ && rows@[i]@[3]@ == "BASE TABLE"@,
            listed_tables(*old(db), schema@) matches Some(ts) ==> r matches Ok(v) && v@.map_values(|row: Vec<String>| strings_view(row@))
                == schema_rows(schema@, sorted_names(ts)),
    {
        let tables = match Self::list_tables(db, schema) {
            Ok(v) => v,
            Err(e) => {
                return Err(e);
            },
        };
        let ghost tsq = strings_view(tables@);
        proof {
            lemma_sorted_names(tsq);
            assert(tsq.take(0) =~= Seq::<Seq<char>>::empty());
        }
        let mut rows: Vec<Vec<String>> = Vec::new();
        proof {
            assert(rows@.map_values(|row: Vec<String>| strings_view(row@)) =~= schema_rows(schema@, tsq.take(0)));
        }
        let mut j: usize = 0;
        while j < tables.len()
            invariant
                j <= tables@.len(),
                tsq == strings_view(tables@),
                forall|k: int| 0 <= k < rows@.len() ==> (#[trigger] rows@[k])@.len() == 4
                    && rows@[k]@[0]@ == "magnumdb"@ && rows@[k]@[3]@ == "BASE TABLE"@,
                rows@.map_values(|row: Vec<String>| strings_view(row@)) == schema_rows(schema@, tsq.take(j as int)),
            decreases tables@.len() - j,
        {
            let mut row: Vec<String> = Vec::new();
            row.push("magnumdb".to_owned());
            row.push(string_of(chars_of(schema).as_slice()));
            row.push(string_of(chars_of(tables[j].as_str()).as_slice()));
            row.push("BASE TABLE".to_owned());
            let ghost prev = rows@;
            rows.push(row);
            proof {
                assert(strings_view(row@) =~= seq!["magnumdb"@, schema@, tsq[j as int], "BASE TABLE"@]);
                assert(schema_rows(schema@, tsq.take(j + 1)) =~= schema_rows(schema@, tsq.take(j as int)).push(seq!["magnumdb"@, schema@, tsq[j as int], "BASE TABLE"@]));
                assert(rows@.map_values(|row: Vec<String>| strings_view(row@)) =~= prev.map_values(|row: Vec<String>| strings_view(row@)).push(strings_view(row@)));
            }
            j = j + 1;
        }
        proof {
            assert(tsq.take(j as int) =~= tsq);
        }
        Ok(rows)
    }

    /// The rows of `information_schema.tables`: catalog, schema, table and table type for
    /// every table of every schema.
    pub fn query_information_schema_tables(db: &mut Database) -> (r: Result<Vec<Vec<String>>, DbError>)
        requires
            old(db).wf(),
        ensures
            final(db).wf(),
            Database::same_contents(*old(db), *final(db)),
            r matches Ok(rows) ==> forall|i: int| 0 <= i < rows@.len() ==> (#[trigger] rows@[i])@.len() == 4
                && rows@[i]@[0]@ == "magnumdb"@ && rows@[i]@[3]@ == "BASE TABLE"@,
            old(db).tree().pool().coherent() ==> match scan_result(
                pages_of(old(db).tree().pool()),
                old(db).tree().root(),
                vstd::utf8::encode_utf8(schema_prefix()),
                old(db).tree().pool().store().len(),
            ) {
                None => r is Err,
                Some(ps) => match info_rows(*old(db), sorted_names(schema_names(pair_keys(ps)))) {
                    Some(rows) => r matches Ok(v) && v@.map_values(|row: Vec<String>| strings_view(row@)) == rows,
                    None => true,
                },
            },
    {
        let ghost db0 = *old(db);
        let mut rows: Vec<Vec<String>> = Vec::new();
        let schemas = match Self::list_schemas(db) {
            Ok(v) => v,
            Err(e) => {
                return Err(e);
            },
        };
        let ghost ss = strings_view(schemas@);
        proof {
            lemma_sorted_names(ss);
            assert(ss.take(0) =~= Seq::<Seq<char>>::empty());
            assert(rows@.map_values(|row: Vec<String>| strings_view(row@)) =~= Seq::<Seq<Seq<char>>>::empty());
        }
        let mut i: usize = 0;
        while i < schemas.len()
            invariant
                db.wf(),
                Database::same_contents(db0, *db),
                db0 == *old(db),
                ss == strings_view(schemas@),
                i <= schemas@.len(),
                forall|k: int| 0 <= k < rows@.len() ==> (#[trigger] rows@[k])@.len() == 4
                    && rows@[k]@[0]@ == "magnumdb"@ && rows@[k]@[3]@ == "BASE TABLE"@,
                info_rows(db0, ss.take(i as int)) matches Some(rs) ==> rows@.map_values(|row: Vec<String>| strings_view(row@)) == rs,
                db0.tree().pool().coherent() ==> match scan_result(
                    pages_of(db0.tree().pool()),
                    db0.tree().root(),
                    vstd::utf8::encode_utf8(schema_prefix()),
                    db0.tree().pool().store().len(),
                ) {
                    Some(ps) => ss == sorted_names(schema_names(pair_keys(ps))),
                    None => true,
                },
            decreases schemas@.len() - i,
        {
            let ghost before = *db;
            let ghost si = ss[i as int];
            proof {
                assert(schemas@[i as int]@ == si);
                if listed_tables(db0, si) is Some {
                    lemma_listed_tables_kept(db0, before, si);
                }
                assert(ss.take(i + 1).drop_last() =~= ss.take(i as int));
                assert(ss.take(i + 1).last() == si);
            }
            let more = match Self::schema_table_rows(db, schemas[i].as_str()) {
                Ok(v) => v,
                Err(e) => {
                    proof {
                        crate::storage::lemma_same_contents_trans(db0, before, *db);
                        lemma_info_rows_none(db0, ss, i + 1);
                    }
                    return Err(e);
                },
            };
            proof {
                crate::storage::lemma_same_contents_trans(db0, before, *db);
            }
            let ghost rows_i = rows@.map_values(|row: Vec<String>| strings_view(row@));
            let ghost more_v = more@.map_values(|row: Vec<String>| strings_view(row@));
            let mut k: usize = 0;
            proof {
                assert(rows_i + more_v.take(0) =~= rows_i);
            }
            while k < more.len()
                invariant
                    k <= more@.len(),
                    more_v == more@.map_values(|row: Vec<String>| strings_view(row@)),
                    forall|m: int| 0 <= m < more@.len() ==> (#[trigger] more@[m])@.len() == 4
                        && more@[m]@[0]@ == "magnumdb"@ && more@[m]@[3]@ == "BASE TABLE"@,
                    forall|m: int| 0 <= m < rows@.len() ==> (#[trigger] rows@[m])@.len() == 4
                        && rows@[m]@[0]@ == "magnumdb"@ && rows@[m]@[3]@ == "BASE TABLE"@,
                    rows@.map_values(|row: Vec<String>| strings_view(row@)) == rows_i + more_v.take(k as int),
                decreases more@.len() - k,
            {
                let ghost prev = rows@;
                let row = crate::sql::volcano::clone_row(&more[k]);
                proof {
                    assert(crate::sql::volcano::row_view(row) == strings_view(row@));
                    assert(crate::sql::volcano::row_view(more@[k as int]) == strings_view(more@[k as int]@));
                    assert(row@.len() == 4);
                    assert(row@[0]@ == strings_view(row@)[0]);
                    assert(row@[3]@ == strings_view(row@)[3]);
                }
                rows.push(row);
                proof {
                    assert(more_v.take(k + 1) =~= more_v.take(k as int).push(more_v[k as int]));
                    assert(rows@.map_values(|row: Vec<String>| strings_view(row@)) =~= prev.map_values(|row: Vec<String>| strings_view(row@)).push(strings_view(row@)));
                }
                k = k + 1;
            }
            proof {
                assert(more_v.take(k as int) =~= more_v);
            }
            i = i + 1;
        }
        proof {
            assert(ss.take(i as int) =~= ss);
        }
        Ok(rows)
    }

    /// The legacy description of a table: `name TYPE` for each column, joined with `,`.
    pub fn legacy_definition(schema: &TableSchema) -> (r: String)
        ensures
            r@ == legacy_text(schema.columns@),
    {
        let mut out: Vec<char> = Vec::new();
        let mut i: usize = 0;
        while i < schema.columns.len()
            invariant
                i <= schema.columns@.len(),
                out@ == legacy_text(schema.columns@.take(i as int)),
            decreases schema.columns@.len() - i,
        {
            let ghost before = out@;
            if i > 0 {
                out.push(',');
            }
            let name = chars_of(schema.columns[i].name.as_str());
            let with_name = concat_chars(out.as_slice(), name.as_slice());
            let with_space = concat_chars(with_name.as_slice(), chars_of(" ").as_slice());
            out = concat_chars(with_space.as_slice(), chars_of(schema.columns[i].data_type.to_sql_string()).as_slice());
            proof {
                reveal_strlit(" ");
                let t = schema.columns@.take(i + 1);
                assert(t.drop_last() =~= schema.columns@.take(i as int));
                assert(t.last() == schema.columns@[i as int]);
                if i == 0 {
                    assert(schema.columns@.take(0) =~= Seq::<ColumnDef>::empty());
                    assert(before =~= Seq::<char>::empty());
                    assert(out@ =~= column_text(schema.columns@[0]));
                } else {
                    assert(out@ =~= before + seq![','] + column_text(schema.columns@[i as int]));
                }
            }
            i += 1;
        }
        assert(schema.columns@.take(i as int) =~= schema.columns@);
        string_of(out.as_slice())
    }

    /// Stores a table description: `serialized` (its serialized form) under the catalog key,
    /// and its legacy description under `__schema__:<table>`.
    pub fn save_table_schema(db: &mut Database, schema: &TableSchema, serialized: &[u8]) -> (r: Result<(), DbError>)
        requires
            old(db).wf(),
        ensures
            final(db).wf(),
            old(db).logging() && old(db).log().spec_lsn() == u64::MAX ==> r == Err::<(), DbError>(DbError::LogFull),
            r is Ok && old(db).logging() && old(db).log().spec_lsn() + 2 <= u64::MAX ==> final(db).log().spec_pending() == old(db).log().spec_pending()
                + crate::wal::frame_bytes(crate::wal::FrameView {
                    lsn: (old(db).log().spec_lsn() + 1) as u64,
                    tx_id: 0,
                    op: 1,
                    payload: crate::wal::put_payload(vstd::utf8::encode_utf8(table_prefix(schema.schema_name@) + unicode_lower(schema.table_name@)), serialized@),
                })
                + crate::wal::frame_bytes(crate::wal::FrameView {
                    lsn: (old(db).log().spec_lsn() + 2) as u64,
                    tx_id: 0,
                    op: 1,
                    payload: crate::wal::put_payload(vstd::utf8::encode_utf8("__schema__:"@ + schema.table_name@), vstd::utf8::encode_utf8(legacy_text(schema.columns@))),
                }),
    {
        let key = Self::table_key(schema.schema_name.as_str(), schema.table_name.as_str());
        let key_bytes = str_bytes(key.as_str());
        match db.put(key_bytes.as_slice(), serialized) {
            Ok(()) => {},
            Err(e) => {
                return Err(e);
            },
        }
        let legacy_key = concat_chars(chars_of("__schema__:").as_slice(), chars_of(schema.table_name.as_str()).as_slice());
        let legacy_bytes = str_bytes(string_of(legacy_key.as_slice()).as_str());
        let value = Self::legacy_definition(schema);
        let value_bytes = str_bytes(value.as_str());
        db.put(legacy_bytes.as_slice(), value_bytes.as_slice())
    }

    /// The table description that a legacy description `name type, ...` gives: per part, the
    /// first word names the column (`col` when there is none) and the second, when it names a
    /// type, gives its type (`TEXT` otherwise); the columns take `NULL`.
    pub fn legacy_schema(table_name: &str, raw: &str) -> (t: TableSchema)
        ensures
            is_legacy_schema(t, table_name@, raw@),
            t.schema_name@ == default_schema(),
            t.table_name@ == table_name@,
            t.columns@.len() == split_char(raw@, ',').len(),
            forall|i: int| 0 <= i < t.columns@.len() ==> #[trigger] t.columns@[i] == legacy_column(split_char(raw@, ',')[i], t.columns@[i].name),
            forall|i: int| 0 <= i < t.columns@.len() ==> (#[trigger] t.columns@[i]).name@ == legacy_column_name(split_char(raw@, ',')[i]),
    {
        let parts = split_char_exec(chars_of(raw).as_slice(), ',');
        let mut cols: Vec<ColumnDef> = Vec::new();
        let mut i: usize = 0;
        while i < parts.len()
            invariant
                i <= parts@.len(),
                parts@.map_values(|p: Vec<char>| p@) == split_char(raw@, ','),
                cols@.len() == i,
                forall|j: int| 0 <= j < i ==> #[trigger] cols@[j] == legacy_column(split_char(raw@, ',')[j], cols@[j].name),
                forall|j: int| 0 <= j < i ==> (#[trigger] cols@[j]).name@ == legacy_column_name(split_char(raw@, ',')[j]),
            decreases parts@.len() - i,
        {
            assert(parts@[i as int]@ == split_char(raw@, ',')[i as int]);
            let toks = tokens_exec(parts[i].as_slice());
            let name = if toks.len() > 0 {
                string_of(toks[0].as_slice())
            } else {
                text_copy("col")
            };
            let data_type = if toks.len() > 1 {
                match data_type_from_chars(toks[1].as_slice()) {
                    Ok(t) => t,
                    Err(_) => DataType::Text,
                }
            } else {
                DataType::Text
            };
            let c = ColumnDef::new(name, data_type);
            cols.push(c);
            i += 1;
        }
        TableSchema::new(text_copy(DEFAULT_SCHEMA), text_copy(table_name), cols)
    }

    /// The stored description of `schema.table`: its serialized catalog entry when there is
    /// one; else, in the default schema, the description its legacy entry gives.
    pub fn lookup_table_schema(db: &mut Database, schema_name: &str, table_name: &str) -> (r: Result<StoredSchema, CatalogError>)
        requires
            old(db).wf(),
        ensures
            final(db).wf(),
            Database::same_contents(*old(db), *final(db)),
            r matches Err(e) ==> e is Db || e is InvalidDescription,
            match crate::sql::executor::stored_value(*old(db), table_entry(schema_name@, table_name@)) {
                Some(Some(b)) => r matches Ok(StoredSchema::Serialized(v)) && v@ == b,
                Some(None) => if upper(schema_name@) != upper(default_schema()) {
                    r matches Ok(StoredSchema::Missing)
                } else {
                    match crate::sql::executor::stored_value(*old(db), vstd::utf8::encode_utf8(legacy_prefix() + table_name@)) {
                        Some(Some(b)) => if vstd::utf8::valid_utf8(b) {
                            r matches Ok(StoredSchema::Legacy(t)) && is_legacy_schema(t, table_name@, vstd::utf8::decode_utf8(b))
                        } else {
                            r matches Err(CatalogError::InvalidDescription)
                        },
                        Some(None) => r matches Ok(StoredSchema::Missing),
                        None => true,
                    }
                },
                None => true,
            },
    {
        let ghost db0 = *old(db);
        let ghost lk = vstd::utf8::encode_utf8(legacy_prefix() + table_name@);
        let key = Self::table_key(schema_name, table_name);
        let key_bytes = str_bytes(key.as_str());
        match db.get(key_bytes.as_slice()) {
            Ok(Some(b)) => {
                return Ok(StoredSchema::Serialized(b));
            },
            Ok(None) => {},
            Err(e) => {
                return Err(CatalogError::Db(e));
            },
        }
        if !chars_eq_ignore_case(chars_of(schema_name).as_slice(), chars_of(DEFAULT_SCHEMA).as_slice()) {
            return Ok(StoredSchema::Missing);
        }
        let legacy_key = concat_chars(chars_of("__schema__:").as_slice(), chars_of(table_name).as_slice());
        let legacy_bytes = str_bytes(string_of(legacy_key.as_slice()).as_str());
        proof {
            assert(legacy_bytes@ == lk);
            if crate::sql::executor::stored_value(db0, lk) is Some {
                crate::storage::lemma_same_contents_lookup(db0, *db, lk);
            }
        }
        let ghost db1 = *db;
        match db.get(legacy_bytes.as_slice()) {
            Ok(Some(b)) => match string_from_utf8(b) {
                Some(raw) => Ok(StoredSchema::Legacy(Self::legacy_schema(table_name, raw.as_str()))),
                None => Err(CatalogError::InvalidDescription),
            },
            Ok(None) => Ok(StoredSchema::Missing),
            Err(e) => Err(CatalogError::Db(e)),
        }
    }

    /// The rows of `information_schema.columns` for one table: catalog `magnumdb`, the schema
    /// and table names, then per column its name, its position from 1, its type's name,
    /// `YES` or `NO` for whether it takes `NULL`, and its default (`NULL` when none).
    pub fn column_rows(schema_name: &str, table_name: &str, schema: &TableSchema) -> (rows: Vec<Vec<String>>)
        requires
            schema.columns@.len() < usize::MAX,
        ensures
            rows@.len() == schema.columns@.len(),
            forall|i: int| 0 <= i < rows@.len() ==> strings_view((#[trigger] rows@[i])@) == column_row(schema_name@, table_name@, i, schema.columns@[i]),
    {
        let mut rows: Vec<Vec<String>> = Vec::new();
        let mut i: usize = 0;
        while i < schema.columns.len()
            invariant
                i <= schema.columns@.len(),
                schema.columns@.len() < usize::MAX,
                rows@.len() == i,
                forall|j: int| 0 <= j < i ==> strings_view((#[trigger] rows@[j])@) == column_row(schema_name@, table_name@, j, schema.columns@[j]),
            decreases schema.columns@.len() - i,
        {
            let col = &schema.columns[i];
            let mut row: Vec<String> = Vec::new();
            row.push(text_copy("magnumdb"));
            row.push(text_copy(schema_name));
            row.push(text_copy(table_name));
            row.push(col.name.clone());
            row.push(string_of(crate::network::pgwire::decimal_exec(i + 1).as_slice()));
            row.push(text_copy(col.data_type.to_sql_string()));
            row.push(if col.is_nullable { text_copy("YES") } else { text_copy("NO") });
            row.push(match &col.default_value {
                Some(d) => d.clone(),
                None => text_copy("NULL"),
            });
            assert(strings_view(row@) =~= column_row(schema_name@, table_name@, i as int, schema.columns@[i as int]));
            rows.push(row);
            i += 1;
        }
        rows
    }
}

} // verus!
