//! Column and table descriptions.
use crate::text::{chars_eq, chars_eq_ignore_case, chars_of, string_of, to_unicode_upper, unicode_upper, upper};
use vstd::prelude::*;

verus! {

/// Supported SQL data types.
#[derive(Debug, Clone, Copy, PartialEq, Eq, Structural)]
pub enum DataType {
    Int,
    BigInt,
    Float,
    Text,
    Boolean,
}

/// An unsupported data type name (upper-cased).
#[derive(Debug, Clone, PartialEq)]
pub enum TypeError {
    UnsupportedDataType { name: String },
}

/// The data type a name stands for, once upper-cased.
pub open spec fn data_type_named(u: Seq<char>) -> Option<DataType> {
    if u == "INT"@ || u == "INTEGER"@ || u == "INT4"@ {
        Some(DataType::Int)
    } else if u == "BIGINT"@ || u == "INT8"@ {
        Some(DataType::BigInt)
    } else if u == "FLOAT"@ || u == "FLOAT8"@ || u == "DOUBLE"@ || u == "REAL"@ {
        Some(DataType::Float)
    } else if u == "TEXT"@ || u == "VARCHAR"@ || u == "STRING"@ || u == "CHAR"@ {
        Some(DataType::Text)
    } else if u == "BOOL"@ || u == "BOOLEAN"@ {
        Some(DataType::Boolean)
    } else {
        None
    }
}

/// The SQL name of a data type.
pub open spec fn sql_name(t: DataType) -> Seq<char> {
    match t {
        DataType::Int => "INTEGER"@,
        DataType::BigInt => "BIGINT"@,
        DataType::Float => "FLOAT"@,
        DataType::Text => "TEXT"@,
        DataType::Boolean => "BOOLEAN"@,
    }
}

/// Every type is named by its own SQL name, so a type written out by its name reads back as
/// itself; and the aliases name the same type as the SQL name they stand for: INT and INT4 as
/// INTEGER, INT8 as BIGINT, FLOAT8, DOUBLE and REAL as FLOAT, VARCHAR, STRING and CHAR as
/// TEXT, BOOL as BOOLEAN.
pub proof fn lemma_type_names(t: DataType)
    ensures
        data_type_named(sql_name(t)) == Some(t),
        data_type_named("INT"@) == data_type_named(sql_name(DataType::Int)),
        data_type_named("INT4"@) == data_type_named(sql_name(DataType::Int)),
        data_type_named("INT8"@) == data_type_named(sql_name(DataType::BigInt)),
        data_type_named("FLOAT8"@) == data_type_named(sql_name(DataType::Float)),
        data_type_named("DOUBLE"@) == data_type_named(sql_name(DataType::Float)),
        data_type_named("REAL"@) == data_type_named(sql_name(DataType::Float)),
        data_type_named("VARCHAR"@) == data_type_named(sql_name(DataType::Text)),
        data_type_named("STRING"@) == data_type_named(sql_name(DataType::Text)),
        data_type_named("CHAR"@) == data_type_named(sql_name(DataType::Text)),
        data_type_named("BOOL"@) == data_type_named(sql_name(DataType::Boolean)),
{
    reveal_strlit("INT");
    reveal_strlit("INTEGER");
    reveal_strlit("INT4");
    reveal_strlit("BIGINT");
    reveal_strlit("INT8");
    reveal_strlit("FLOAT");
    reveal_strlit("FLOAT8");
    reveal_strlit("DOUBLE");
    reveal_strlit("REAL");
    reveal_strlit("TEXT");
    reveal_strlit("VARCHAR");
    reveal_strlit("STRING");
    reveal_strlit("CHAR");
    reveal_strlit("BOOL");
    reveal_strlit("BOOLEAN");
    assert(data_type_named("INT"@) == Some(DataType::Int));
    assert(data_type_named("INTEGER"@) == Some(DataType::Int));
    assert(data_type_named("INT4"@) == Some(DataType::Int));
    assert("BIGINT"@.len() != "INT"@.len());
    assert("BIGINT"@ != "INT"@);
    assert("BIGINT"@.len() != "INTEGER"@.len());
    assert("BIGINT"@ != "INTEGER"@);
    assert("BIGINT"@.len() != "INT4"@.len());
    assert("BIGINT"@ != "INT4"@);
    assert(data_type_named("BIGINT"@) == Some(DataType::BigInt));
    assert("INT8"@.len() != "INT"@.len());
    assert("INT8"@ != "INT"@);
    assert("INT8"@.len() != "INTEGER"@.len());
    assert("INT8"@ != "INTEGER"@);
    assert("INT8"@[3] != "INT4"@[3]);
    assert("INT8"@ != "INT4"@);
    assert(data_type_named("INT8"@) == Some(DataType::BigInt));
    assert("FLOAT"@.len() != "INT"@.len());
    assert("FLOAT"@ != "INT"@);
    assert("FLOAT"@.len() != "INTEGER"@.len());
    assert("FLOAT"@ != "INTEGER"@);
    assert("FLOAT"@.len() != "INT4"@.len());
    assert("FLOAT"@ != "INT4"@);
    assert("FLOAT"@.len() != "BIGINT"@.len());
    assert("FLOAT"@ != "BIGINT"@);
    assert("FLOAT"@.len() != "INT8"@.len());
    assert("FLOAT"@ != "INT8"@);
    assert(data_type_named("FLOAT"@) == Some(DataType::Float));
    assert("FLOAT8"@.len() != "INT"@.len());
    assert("FLOAT8"@ != "INT"@);
    assert("FLOAT8"@.len() != "INTEGER"@.len());
    assert("FLOAT8"@ != "INTEGER"@);
    assert("FLOAT8"@.len() != "INT4"@.len());
    assert("FLOAT8"@ != "INT4"@);
    assert("FLOAT8"@[0] != "BIGINT"@[0]);
    assert("FLOAT8"@ != "BIGINT"@);
    assert("FLOAT8"@.len() != "INT8"@.len());
    assert("FLOAT8"@ != "INT8"@);
    assert(data_type_named("FLOAT8"@) == Some(DataType::Float));
    assert("DOUBLE"@.len() != "INT"@.len());
    assert("DOUBLE"@ != "INT"@);
    assert("DOUBLE"@.len() != "INTEGER"@.len());
    assert("DOUBLE"@ != "INTEGER"@);
    assert("DOUBLE"@.len() != "INT4"@.len());
    assert("DOUBLE"@ != "INT4"@);
    assert("DOUBLE"@[0] != "BIGINT"@[0]);
    assert("DOUBLE"@ != "BIGINT"@);
    assert("DOUBLE"@.len() != "INT8"@.len());
    assert("DOUBLE"@ != "INT8"@);
    assert(data_type_named("DOUBLE"@) == Some(DataType::Float));
    assert("REAL"@.len() != "INT"@.len());
    assert("REAL"@ != "INT"@);
    assert("REAL"@.len() != "INTEGER"@.len());
    assert("REAL"@ != "INTEGER"@);
    assert("REAL"@[0] != "INT4"@[0]);
    assert("REAL"@ != "INT4"@);
    assert("REAL"@.len() != "BIGINT"@.len());
    assert("REAL"@ != "BIGINT"@);
    assert("REAL"@[0] != "INT8"@[0]);
    assert("REAL"@ != "INT8"@);
    assert(data_type_named("REAL"@) == Some(DataType::Float));
    assert("TEXT"@.len() != "INT"@.len());
    assert("TEXT"@ != "INT"@);
    assert("TEXT"@.len() != "INTEGER"@.len());
    assert("TEXT"@ != "INTEGER"@);
    assert("TEXT"@[0] != "INT4"@[0]);
    assert("TEXT"@ != "INT4"@);
    assert("TEXT"@.len() != "BIGINT"@.len());
    assert("TEXT"@ != "BIGINT"@);
    assert("TEXT"@[0] != "INT8"@[0]);
    assert("TEXT"@ != "INT8"@);
    assert("TEXT"@.len() != "FLOAT"@.len());
    assert("TEXT"@ != "FLOAT"@);
    assert("TEXT"@.len() != "FLOAT8"@.len());
    assert("TEXT"@ != "FLOAT8"@);
    assert("TEXT"@.len() != "DOUBLE"@.len());
    assert("TEXT"@ != "DOUBLE"@);
    assert("TEXT"@[0] != "REAL"@[0]);
    assert("TEXT"@ != "REAL"@);
    assert(data_type_named("TEXT"@) == Some(DataType::Text));
    assert("VARCHAR"@.len() != "INT"@.len());
    assert("VARCHAR"@ != "INT"@);
    assert("VARCHAR"@[0] != "INTEGER"@[0]);
    assert("VARCHAR"@ != "INTEGER"@);
    assert("VARCHAR"@.len() != "INT4"@.len());
    assert("VARCHAR"@ != "INT4"@);
    assert("VARCHAR"@.len() != "BIGINT"@.len());
    assert("VARCHAR"@ != "BIGINT"@);
    assert("VARCHAR"@.len() != "INT8"@.len());
    assert("VARCHAR"@ != "INT8"@);
    assert("VARCHAR"@.len() != "FLOAT"@.len());
    assert("VARCHAR"@ != "FLOAT"@);
    assert("VARCHAR"@.len() != "FLOAT8"@.len());
    assert("VARCHAR"@ != "FLOAT8"@);
    assert("VARCHAR"@.len() != "DOUBLE"@.len());
    assert("VARCHAR"@ != "DOUBLE"@);
    assert("VARCHAR"@.len() != "REAL"@.len());
    assert("VARCHAR"@ != "REAL"@);
    assert(data_type_named("VARCHAR"@) == Some(DataType::Text));
    assert("STRING"@.len() != "INT"@.len());
    assert("STRING"@ != "INT"@);
    assert("STRING"@.len() != "INTEGER"@.len());
    assert("STRING"@ != "INTEGER"@);
    assert("STRING"@.len() != "INT4"@.len());
    assert("STRING"@ != "INT4"@);
    assert("STRING"@[0] != "BIGINT"@[0]);
    assert("STRING"@ != "BIGINT"@);
    assert("STRING"@.len() != "INT8"@.len());
    assert("STRING"@ != "INT8"@);
    assert("STRING"@.len() != "FLOAT"@.len());
    assert("STRING"@ != "FLOAT"@);
    assert("STRING"@[0] != "FLOAT8"@[0]);
    assert("STRING"@ != "FLOAT8"@);
    assert("STRING"@[0] != "DOUBLE"@[0]);
    assert("STRING"@ != "DOUBLE"@);
    assert("STRING"@.len() != "REAL"@.len());
    assert("STRING"@ != "REAL"@);
    assert(data_type_named("STRING"@) == Some(DataType::Text));
    assert("CHAR"@.len() != "INT"@.len());
    assert("CHAR"@ != "INT"@);
    assert("CHAR"@.len() != "INTEGER"@.len());
    assert("CHAR"@ != "INTEGER"@);
    assert("CHAR"@[0] != "INT4"@[0]);
    assert("CHAR"@ != "INT4"@);
    assert("CHAR"@.len() != "BIGINT"@.len());
    assert("CHAR"@ != "BIGINT"@);
    assert("CHAR"@[0] != "INT8"@[0]);
    assert("CHAR"@ != "INT8"@);
    assert("CHAR"@.len() != "FLOAT"@.len());
    assert("CHAR"@ != "FLOAT"@);
    assert("CHAR"@.len() != "FLOAT8"@.len());
    assert("CHAR"@ != "FLOAT8"@);
    assert("CHAR"@.len() != "DOUBLE"@.len());
    assert("CHAR"@ != "DOUBLE"@);
    assert("CHAR"@[0] != "REAL"@[0]);
    assert("CHAR"@ != "REAL"@);
    assert(data_type_named("CHAR"@) == Some(DataType::Text));
    assert("BOOL"@.len() != "INT"@.len());
    assert("BOOL"@ != "INT"@);
    assert("BOOL"@.len() != "INTEGER"@.len());
    assert("BOOL"@ != "INTEGER"@);
    assert("BOOL"@[0] != "INT4"@[0]);
    assert("BOOL"@ != "INT4"@);
    assert("BOOL"@.len() != "BIGINT"@.len());
    assert("BOOL"@ != "BIGINT"@);
    assert("BOOL"@[0] != "INT8"@[0]);
    assert("BOOL"@ != "INT8"@);
    assert("BOOL"@.len() != "FLOAT"@.len());
    assert("BOOL"@ != "FLOAT"@);
    assert("BOOL"@.len() != "FLOAT8"@.len());
    assert("BOOL"@ != "FLOAT8"@);
    assert("BOOL"@.len() != "DOUBLE"@.len());
    assert("BOOL"@ != "DOUBLE"@);
    assert("BOOL"@[0] != "REAL"@[0]);
    assert("BOOL"@ != "REAL"@);
    assert("BOOL"@[0] != "TEXT"@[0]);
    assert("BOOL"@ != "TEXT"@);
    assert("BOOL"@.len() != "VARCHAR"@.len());
    assert("BOOL"@ != "VARCHAR"@);
    assert("BOOL"@.len() != "STRING"@.len());
    assert("BOOL"@ != "STRING"@);
    assert("BOOL"@[0] != "CHAR"@[0]);
    assert("BOOL"@ != "CHAR"@);
    assert(data_type_named("BOOL"@) == Some(DataType::Boolean));
    assert("BOOLEAN"@.len() != "INT"@.len());
    assert("BOOLEAN"@ != "INT"@);
    assert("BOOLEAN"@[0] != "INTEGER"@[0]);
    assert("BOOLEAN"@ != "INTEGER"@);
    assert("BOOLEAN"@.len() != "INT4"@.len());
    assert("BOOLEAN"@ != "INT4"@);
    assert("BOOLEAN"@.len() != "BIGINT"@.len());
    assert("BOOLEAN"@ != "BIGINT"@);
    assert("BOOLEAN"@.len() != "INT8"@.len());
    assert("BOOLEAN"@ != "INT8"@);
    assert("BOOLEAN"@.len() != "FLOAT"@.len());
    assert("BOOLEAN"@ != "FLOAT"@);
    assert("BOOLEAN"@.len() != "FLOAT8"@.len());
    assert("BOOLEAN"@ != "FLOAT8"@);
    assert("BOOLEAN"@.len() != "DOUBLE"@.len());
    assert("BOOLEAN"@ != "DOUBLE"@);
    assert("BOOLEAN"@.len() != "REAL"@.len());
    assert("BOOLEAN"@ != "REAL"@);
    assert("BOOLEAN"@.len() != "TEXT"@.len());
    assert("BOOLEAN"@ != "TEXT"@);
    assert("BOOLEAN"@[0] != "VARCHAR"@[0]);
    assert("BOOLEAN"@ != "VARCHAR"@);
    assert("BOOLEAN"@.len() != "STRING"@.len());
    assert("BOOLEAN"@ != "STRING"@);
    assert("BOOLEAN"@.len() != "CHAR"@.len());
    assert("BOOLEAN"@ != "CHAR"@);
    assert(data_type_named("BOOLEAN"@) == Some(DataType::Boolean));
}

/// Distinct types have distinct names: a name stands for at most one type, and the SQL name
/// of a type names no other.
pub proof fn lemma_type_names_distinct(t1: DataType, t2: DataType)
    ensures
        data_type_named(sql_name(t1)) == data_type_named(sql_name(t2)) ==> t1 == t2,
{
    lemma_type_names(t1);
    lemma_type_names(t2);
}

fn is_kw(u: &[char], kw: &str) -> (r: bool)
    ensures
        r == (u@ == kw@),
{
    let k = chars_of(kw);
    chars_eq(u, k.as_slice())
}

/// The data type that an already upper-cased type name `u` names.
pub fn data_type_from_upper(u: &[char]) -> (r: Result<DataType, TypeError>)
    ensures
        match r {
            Ok(t) => data_type_named(u@) == Some(t),
            Err(TypeError::UnsupportedDataType { name }) => data_type_named(u@) is None && name@ == u@,
        },
{
    if is_kw(u, "INT") || is_kw(u, "INTEGER") || is_kw(u, "INT4") {
        Ok(DataType::Int)
    } else if is_kw(u, "BIGINT") || is_kw(u, "INT8") {
        Ok(DataType::BigInt)
    } else if is_kw(u, "FLOAT") || is_kw(u, "FLOAT8") || is_kw(u, "DOUBLE") || is_kw(u, "REAL") {
        Ok(DataType::Float)
    } else if is_kw(u, "TEXT") || is_kw(u, "VARCHAR") || is_kw(u, "STRING") || is_kw(u, "CHAR") {
        Ok(DataType::Text)
    } else if is_kw(u, "BOOL") || is_kw(u, "BOOLEAN") {
        Ok(DataType::Boolean)
    } else {
        Err(TypeError::UnsupportedDataType { name: string_of(u) })
    }
}

/// Data type from a chars slice, as `from_str` describes: the name is upper-cased (Unicode
/// case mapping) and then looked up.
pub fn data_type_from_chars(s: &[char]) -> (r: Result<DataType, TypeError>)
    ensures
        match r {
            Ok(t) => data_type_named(unicode_upper(s@)) == Some(t),
            Err(TypeError::UnsupportedDataType { name }) => data_type_named(unicode_upper(s@)) is None
                && name@ == unicode_upper(s@),
        },
{
    let up = to_unicode_upper(s);
    data_type_from_upper(up.as_slice())
}

impl DataType {
    /// Parses a type name, ignoring case (Unicode case mapping).
    pub fn from_str(s: &str) -> (r: Result<DataType, TypeError>)
        ensures
            match r {
                Ok(t) => data_type_named(unicode_upper(s@)) == Some(t),
                Err(TypeError::UnsupportedDataType { name }) => data_type_named(unicode_upper(s@)) is None
                    && name@ == unicode_upper(s@),
            },
    {
        let cs = chars_of(s);
        data_type_from_chars(cs.as_slice())
    }

    /// The SQL name of the type.
    pub fn to_sql_string(&self) -> (r: &'static str)
        ensures
            r@ == sql_name(*self),
    {
        match self {
            DataType::Int => "INTEGER",
            DataType::BigInt => "BIGINT",
            DataType::Float => "FLOAT",
            DataType::Text => "TEXT",
            DataType::Boolean => "BOOLEAN",
        }
    }
}

/// A column of a table.
#[derive(Debug, Clone, PartialEq, Eq)]
pub struct ColumnDef {
    pub name: String,
    pub data_type: DataType,
    pub is_nullable: bool,
    pub is_primary_key: bool,
    pub is_unique: bool,
    pub default_value: Option<String>,
}

impl ColumnDef {
    /// A nullable, non-key column without a default.
    pub fn new(name: String, data_type: DataType) -> (c: ColumnDef)
        ensures
            c.name == name,
            c.data_type == data_type,
            c.is_nullable,
            !c.is_primary_key,
            !c.is_unique,
            c.default_value is None,
    {
        ColumnDef {
            name,
            data_type,
            is_nullable: true,
            is_primary_key: false,
            is_unique: false,
            default_value: None,
        }
    }

    pub fn with_nullable(self, nullable: bool) -> (c: ColumnDef)
        ensures
            c == (ColumnDef { is_nullable: nullable, ..self }),
    {
        let mut c = self;
        c.is_nullable = nullable;
        c
    }

    /// Marks the column as (not) the primary key; a primary key is also unique and not null.
    pub fn with_primary_key(self, primary_key: bool) -> (c: ColumnDef)
        ensures
            primary_key ==> c == (ColumnDef {
                is_primary_key: true,
                is_nullable: false,
                is_unique: true,
                ..self
            }),
            !primary_key ==> c == (ColumnDef { is_primary_key: false, ..self }),
    {
        let mut c = self;
        c.is_primary_key = primary_key;
        if primary_key {
            c.is_nullable = false;
            c.is_unique = true;
        }
        c
    }

    pub fn with_unique(self, unique: bool) -> (c: ColumnDef)
        ensures
            c == (ColumnDef { is_unique: unique, ..self }),
    {
        let mut c = self;
        c.is_unique = unique;
        c
    }
}

/// The names of the primary-key columns, in column order.
pub open spec fn pk_names(cols: Seq<ColumnDef>) -> Seq<Seq<char>>
    decreases cols.len(),
{
    if cols.len() == 0 {
        Seq::empty()
    } else {
        let prev = pk_names(cols.drop_last());
        if cols.last().is_primary_key {
            prev.push(cols.last().name@)
        } else {
            prev
        }
    }
}

/// The full description of a table.
#[derive(Debug, Clone, PartialEq, Eq)]
pub struct TableSchema {
    pub schema_name: String,
    pub table_name: String,
    pub columns: Vec<ColumnDef>,
    pub primary_key: Option<Vec<String>>,
}

impl TableSchema {
    /// A table description; the primary key lists the primary-key columns, or is absent when
    /// there are none.
    pub fn new(schema_name: String, table_name: String, columns: Vec<ColumnDef>) -> (t: TableSchema)
        ensures
            t.schema_name == schema_name,
            t.table_name == table_name,
            t.columns == columns,
            pk_names(columns@).len() == 0 ==> t.primary_key is None,
            pk_names(columns@).len() > 0 ==> (t.primary_key matches Some(pk) && pk@.map_values(
                |s: String| s@,
            ) == pk_names(columns@)),
    {
        let mut pk_cols: Vec<String> = Vec::new();
        let mut i: usize = 0;
        while i < columns.len()
            invariant
                i <= columns@.len(),
                pk_cols@.map_values(|s: String| s@) == pk_names(columns@.take(i as int)),
            decreases columns@.len() - i,
        {
            assert(columns@.take(i + 1).drop_last() =~= columns@.take(i as int));
            let ghost before = pk_cols@.map_values(|s: String| s@);
            if columns[i].is_primary_key {
                pk_cols.push(columns[i].name.clone());
                assert(pk_cols@.map_values(|s: String| s@) =~= before.push(columns@[i as int].name@));
            }
            i += 1;
        }
        assert(columns@.take(i as int) =~= columns@);
        let primary_key = if pk_cols.len() > 0 {
            Some(pk_cols)
        } else {
            None
        };
        TableSchema { schema_name, table_name, columns, primary_key }
    }

    /// `schema.table`.
    pub fn full_name(&self) -> (r: String)
        ensures
            r@ == self.schema_name@ + seq!['.'] + self.table_name@,
    {
        let mut cs = chars_of(self.schema_name.as_str());
        cs.push('.');
        let t = chars_of(self.table_name.as_str());
        let mut i: usize = 0;
        let ghost base = cs@;
        while i < t.len()
            invariant
                i <= t@.len(),
                cs@ == base + t@.take(i as int),
            decreases t@.len() - i,
        {
            cs.push(t[i]);
            i += 1;
            assert(cs@ =~= base + t@.take(i as int));
        }
        assert(t@.take(i as int) =~= t@);
        string_of(cs.as_slice())
    }

    /// The first column whose name matches `col_name` ignoring ASCII case, with its index.
    pub fn find_column(&self, col_name: &str) -> (r: Option<(usize, &ColumnDef)>)
        ensures
            match r {
                Some((i, c)) => i < self.columns@.len() && *c == self.columns@[i as int] && upper(
                    c.name@,
                ) == upper(col_name@) && forall|j: int|
                    0 <= j < i ==> upper(#[trigger] self.columns@[j].name@) != upper(col_name@),
                None => forall|j: int|
                    0 <= j < self.columns@.len() ==> upper(#[trigger] self.columns@[j].name@)
                        != upper(col_name@),
            },
    {
        let target = chars_of(col_name);
        let mut i: usize = 0;
        while i < self.columns.len()
            invariant
                i <= self.columns@.len(),
                target@ == col_name@,
                forall|j: int|
                    0 <= j < i ==> upper(#[trigger] self.columns@[j].name@) != upper(col_name@),
            decreases self.columns@.len() - i,
        {
            let name = chars_of(self.columns[i].name.as_str());
            if chars_eq_ignore_case(name.as_slice(), target.as_slice()) {
                return Some((i, &self.columns[i]));
            }
            i += 1;
        }
        None
    }

    /// The column names, in order.
    pub fn column_names(&self) -> (r: Vec<String>)
        ensures
            r@.map_values(|s: String| s@) == self.columns@.map_values(|c: ColumnDef| c.name@),
    {
        let mut r: Vec<String> = Vec::new();
        let mut i: usize = 0;
        while i < self.columns.len()
            invariant
                i <= self.columns@.len(),
                r@.map_values(|s: String| s@) == self.columns@.take(i as int).map_values(
                    |c: ColumnDef| c.name@,
                ),
            decreases self.columns@.len() - i,
        {
            let ghost before = r@.map_values(|s: String| s@);
            let n = self.columns[i].name.clone();
            assert(n@ == self.columns@[i as int].name@);
            r.push(n);
            assert(self.columns@.take(i + 1).map_values(|c: ColumnDef| c.name@) =~= self.columns@.take(
                i as int,
            ).map_values(|c: ColumnDef| c.name@).push(self.columns@[i as int].name@));
            assert(r@.map_values(|s: String| s@) =~= before.push(n@));
            i += 1;
        }
        assert(self.columns@.take(i as int) =~= self.columns@);
        r
    }
}

} // verus!
