use magnumdb::config::Config;
use magnumdb::sql::catalog::{CatalogManager, StoredSchema};
use magnumdb::sql::executor::{
    aggregate_table, check_row, column_position, finish_select, format_table_output, list_output, parse_column_def,
    parse_qualified_table_name, resolve_aggregate, Executor, QueryError, SelectReply, TxIdCounter,
};
use magnumdb::sql::parser::{ParseError, Parser, Statement};
use magnumdb::sql::types::{ColumnDef, DataType, TableSchema};
use magnumdb::sql::values::check_value;
use magnumdb::sql::volcano::{count_text, group_rows, AggregateFunc};
use magnumdb::storage::Database;

/// A database with an executor, holding the catalog's table descriptions as decoded values
/// (the program keeps them serialized in the database).
struct Session {
    db: Database,
    exec: Executor,
    tables: Vec<TableSchema>,
    next_tx: u64,
}

impl Session {
    fn new() -> Session {
        let mut config = Config::default();
        config.wal.enabled = false;
        config.storage.sync_interval = 0;
        let mut db = Database::open(config, &[], &[]).unwrap();
        let exec = Executor::new(&mut db);
        Session { db, exec, tables: Vec::new(), next_tx: 0 }
    }

    fn catalog(&self, table_name: &str) -> Option<TableSchema> {
        let (s, t) = parse_qualified_table_name(table_name);
        self.tables
            .iter()
            .find(|ts| ts.schema_name.to_lowercase() == s.to_lowercase() && ts.table_name.to_lowercase() == t.to_lowercase())
            .cloned()
    }

    fn run(&mut self, sql: &str) -> Result<String, QueryError> {
        let stmt = Parser::parse(sql).unwrap();
        self.execute(stmt)
    }

    fn execute(&mut self, stmt: Statement) -> Result<String, QueryError> {
        let db = &mut self.db;
        match stmt {
            Statement::Begin => {
                self.next_tx += 1;
                self.exec.begin(db, self.next_tx)
            },
            Statement::Commit => self.exec.commit(db),
            Statement::Rollback => self.exec.rollback(db),
            Statement::CreateSchema { schema_name } => self.exec.create_schema(db, &schema_name),
            Statement::ShowSchemas => self.exec.show_schemas(db),
            Statement::ShowTables => self.exec.show_tables(db),
            Statement::CreateTable { table_name, columns } => {
                let catalogued = self.catalog(&table_name).is_some();
                let db = &mut self.db;
                let schema = self.exec.table_definition(db, &table_name, &columns, catalogued)?;
                CatalogManager::save_table_schema(db, &schema, b"{}").map_err(QueryError::Db)?;
                self.tables.push(schema);
                self.exec.create_table(db, &table_name, &columns)
            },
            Statement::CreateIndex { index_name, table_name, columns } => {
                self.exec.create_index(db, &index_name, &table_name, &columns)
            },
            Statement::Insert { table_name, values } => {
                let catalog = self.catalog(&table_name);
                self.exec.insert(&mut self.db, &table_name, &values, catalog.as_ref())
            },
            Statement::Update { table_name, column, value, pk_val } => {
                let catalog = self.catalog(&table_name);
                self.exec.update(&mut self.db, &table_name, &column, &value, &pk_val, catalog.as_ref())
            },
            Statement::Delete { table_name, pk_val } => self.exec.delete(db, &table_name, &pk_val),
            Statement::DropTable { table_name } => self.exec.drop_table(db, &table_name),
            Statement::SelectJoin { left_table, right_table, left_col, right_col, is_left_join } => {
                self.exec.select_join(db, &left_table, &right_table, &left_col, &right_col, is_left_join)
            },
            Statement::Select { table_name, where_clause, order_by, limit_offset } => {
                match self.exec.select(db, &table_name, &where_clause, &order_by, limit_offset)? {
                    SelectReply::Table(out) => Ok(out),
                    SelectReply::Sort { col_names, mut rows, sort_col, descending, limit_offset } => {
                        rows.sort_by(|a, b| {
                            let va = a.get(sort_col).map(|s| s.as_str()).unwrap_or("");
                            let vb = b.get(sort_col).map(|s| s.as_str()).unwrap_or("");
                            let ord = match (va.parse::<f64>(), vb.parse::<f64>()) {
                                (Ok(x), Ok(y)) => x.partial_cmp(&y).unwrap_or(std::cmp::Ordering::Equal),
                                _ => va.cmp(vb),
                            };
                            if descending { ord.reverse() } else { ord }
                        });
                        Ok(finish_select(&col_names, rows, limit_offset))
                    },
                    SelectReply::ColumnsCatalog => {
                        let mut rows = Vec::new();
                        for schema_name in CatalogManager::list_schemas(&mut self.db).unwrap() {
                            for t in CatalogManager::list_tables(&mut self.db, &schema_name).unwrap() {
                                let found = self.tables.iter().find(|ts| {
                                    ts.schema_name.eq_ignore_ascii_case(&schema_name) && ts.table_name.eq_ignore_ascii_case(&t)
                                });
                                if let Some(ts) = found {
                                    rows.extend(CatalogManager::column_rows(&schema_name, &t, ts));
                                }
                            }
                        }
                        let headers: Vec<String> = [
                            "table_catalog",
                            "table_schema",
                            "table_name",
                            "column_name",
                            "ordinal_position",
                            "data_type",
                            "is_nullable",
                            "column_default",
                        ]
                        .iter()
                        .map(|h| h.to_string())
                        .collect();
                        Ok(format_table_output(&headers, &rows))
                    },
                }
            },
            other => panic!("not covered here: {:?}", other),
        }
    }
}

#[test]
fn test_create_table_and_insert() {
    let mut s = Session::new();

    // 1. Create table
    assert!(s.run("CREATE TABLE users(id INT, name TEXT)").is_ok());

    // 2. Insert into non-existent table fails
    assert!(s.run("INSERT INTO fake VALUES(1, 'John')").is_err());

    // 3. Insert valid row
    assert!(s.run("INSERT INTO users VALUES(1, 'John')").is_ok());

    // 4. Insert wrong column count fails
    assert!(s.run("INSERT INTO users VALUES(2)").is_err());

    // 5. Select round-trips correctly
    let res = s.run("SELECT * FROM users").unwrap();
    assert!(res.contains("id | name"));
    assert!(res.contains("1 | John"));
}

#[test]
fn test_transactions() {
    let mut s = Session::new();
    s.run("CREATE TABLE users(id INT, name TEXT)").unwrap();

    // 1. Rollback test
    s.run("BEGIN").unwrap();
    s.run("INSERT INTO users VALUES(1, 'Alice')").unwrap();

    // Verify it exists in current transaction context
    let res = s.run("SELECT * FROM users").unwrap();
    assert!(res.contains("Alice"));

    // Rollback
    s.run("ROLLBACK").unwrap();

    // Verify it's gone
    let res = s.run("SELECT * FROM users").unwrap();
    assert!(!res.contains("Alice"));

    // 2. Commit test
    s.run("BEGIN").unwrap();
    s.run("INSERT INTO users VALUES(2, 'Bob')").unwrap();
    s.run("COMMIT").unwrap();

    let res = s.run("SELECT * FROM users").unwrap();
    assert!(res.contains("Bob"));
}

#[test]
fn test_insert_with_commas_in_values() {
    let mut s = Session::new();
    s.run("CREATE TABLE notes(id INT, content TEXT)").unwrap();
    s.run("INSERT INTO notes VALUES(1, 'hello, world')").unwrap();
    let res = s.run("SELECT * FROM notes").unwrap();
    assert!(res.contains("hello, world"));
}

#[test]
fn test_schemas_and_namespaces() {
    let mut s = Session::new();

    // 1. Create Schema
    let res = s.run("CREATE SCHEMA analytics").unwrap();
    assert!(res.contains("schema 'analytics' created"));

    // 2. Show Schemas
    let schemas_res = s.run("SHOW SCHEMAS").unwrap();
    assert!(schemas_res.contains("analytics"));
    assert!(schemas_res.contains("public"));

    // 3. Create Table under qualified schema name
    s.run("CREATE TABLE analytics.events(id INT, event_name TEXT)").unwrap();

    // 4. Insert into qualified table
    s.run("INSERT INTO analytics.events VALUES(101, 'click')").unwrap();

    // 5. Select from qualified table
    let sel_res = s.run("SELECT * FROM analytics.events").unwrap();
    assert!(sel_res.contains("101 | click"));
}

#[test]
fn test_data_type_validation_and_not_null() {
    let mut s = Session::new();
    s.run("CREATE TABLE products(id INT NOT NULL PRIMARY KEY, name TEXT NOT NULL, price FLOAT)").unwrap();

    // Valid insert
    let res = s.run("INSERT INTO products VALUES(1, 'Laptop', 999.99)").unwrap();
    assert!(res.contains("1 row inserted"));

    // Invalid INT type
    let err_type = s.run("INSERT INTO products VALUES('invalid_num', 'Mouse', 19.99)");
    assert!(err_type.is_err());
    assert!(matches!(err_type, Err(QueryError::InvalidValue { data_type: DataType::Int, .. })));

    // NOT NULL violation
    let err_null = s.run("INSERT INTO products VALUES(2, NULL, 49.99)");
    assert!(err_null.is_err());
    assert_eq!(err_null, Err(QueryError::NotNull { column: "name".to_string() }));
}

#[test]
fn test_information_schema() {
    let mut s = Session::new();
    s.run("CREATE TABLE users(id INT NOT NULL PRIMARY KEY, email TEXT)").unwrap();

    let tables_res = s.run("SELECT * FROM information_schema.tables").unwrap();
    assert!(tables_res.contains("public"));
    assert!(tables_res.contains("users"));
    assert!(tables_res.contains("table_catalog | table_schema | table_name | table_type"));
    assert!(tables_res.contains("| magnumdb | public | users | BASE TABLE |"));

    let cols_res = s.run("SELECT * FROM information_schema.columns").unwrap();
    assert!(cols_res.contains("id"));
    assert!(cols_res.contains("email"));
    assert!(cols_res.contains("INTEGER"));
    assert!(cols_res.contains("TEXT"));
    assert!(cols_res.contains("| magnumdb | public | users | id | 1 | INTEGER | NO | NULL |"));
}

#[test]
fn information_schema_columns_is_left_to_the_caller() {
    let mut s = Session::new();
    let reply = s.exec.select(&mut s.db, "information_schema.columns", &None, &None, None).unwrap();
    assert!(matches!(reply, SelectReply::ColumnsCatalog));
}

#[test]
fn test_executor_order_by_limit_offset() {
    let mut s = Session::new();
    s.execute(Statement::CreateTable {
        table_name: "users".to_string(),
        columns: vec!["id INT".to_string(), "age INT".to_string()],
    })
    .unwrap();
    for (id, age) in [("1", "20"), ("2", "30"), ("3", "25")] {
        s.execute(Statement::Insert { table_name: "users".to_string(), values: vec![id.to_string(), age.to_string()] })
            .unwrap();
    }

    let res = s
        .execute(Statement::Select {
            table_name: "users".to_string(),
            where_clause: None,
            order_by: Some(("age".to_string(), true)),
            limit_offset: Some((2, 0)),
        })
        .unwrap();

    assert!(res.contains("30"));
    assert!(res.contains("25"));
    assert!(!res.contains("20"));
}

#[test]
fn order_by_unknown_column_is_an_error() {
    let mut s = Session::new();
    s.run("CREATE TABLE t(id INT, v TEXT)").unwrap();
    let r = s.run("SELECT * FROM t ORDER BY nope");
    assert_eq!(r, Err(QueryError::NoSuchSortColumn { column: "nope".to_string() }));
}

#[test]
fn begin_twice_and_commit_outside_a_transaction_fail() {
    let mut s = Session::new();
    assert_eq!(s.run("COMMIT"), Err(QueryError::NoTransaction));
    assert_eq!(s.run("ROLLBACK"), Err(QueryError::NoTransaction));
    assert_eq!(s.run("BEGIN").unwrap(), "Query OK, transaction started.");
    assert_eq!(s.run("BEGIN"), Err(QueryError::TransactionInProgress));
    assert_eq!(s.run("ROLLBACK").unwrap(), "Query OK, transaction rolled back.");
    assert!(!s.exec.in_transaction());
}

#[test]
fn commit_applies_pending_writes() {
    let mut s = Session::new();
    s.run("CREATE TABLE t(id INT, v TEXT)").unwrap();
    s.run("BEGIN").unwrap();
    s.run("INSERT INTO t VALUES(1, 'a')").unwrap();
    assert!(s.db.get(b"t:1").unwrap().is_none());
    assert_eq!(s.run("COMMIT").unwrap(), "Query OK, transaction committed.");
    assert!(s.db.get(b"t:1").unwrap().is_some());
}

#[test]
fn create_table_twice_fails() {
    let mut s = Session::new();
    assert_eq!(s.run("CREATE TABLE t(id INT)").unwrap(), "Query OK, table 't' created.");
    assert_eq!(s.run("CREATE TABLE t(id INT)"), Err(QueryError::TableExists { name: "t".to_string() }));
    assert_eq!(s.run("CREATE TABLE s.t2(id INT)").unwrap(), "Query OK, table 's.t2' created.");
}

#[test]
fn update_and_delete_by_key() {
    let mut s = Session::new();
    s.run("CREATE TABLE t(id INT, v TEXT)").unwrap();
    s.run("INSERT INTO t VALUES(1, 'a')").unwrap();
    s.run("INSERT INTO t VALUES(2, 'b')").unwrap();
    assert_eq!(s.run("UPDATE t SET v = 'z' WHERE id = 1").unwrap(), "Query OK, 1 row updated.");
    let res = s.run("SELECT * FROM t").unwrap();
    assert!(res.contains("| 1 | z |"));
    assert_eq!(s.run("UPDATE t SET v = 'q' WHERE id = 9").unwrap(), "Query OK, 0 rows updated.");
    assert_eq!(s.run("DELETE FROM t WHERE id = 2").unwrap(), "Query OK, 1 row deleted.");
    let res = s.run("SELECT * FROM t").unwrap();
    assert!(!res.contains("| 2 | b |"));
    assert!(res.ends_with("1 row(s) in set."));
}

#[test]
fn update_rejects_unknown_column() {
    let mut s = Session::new();
    s.run("CREATE TABLE t(id INT, v TEXT)").unwrap();
    let r = s.run("UPDATE t SET w = 'z' WHERE id = 1");
    assert_eq!(r, Err(QueryError::NoSuchColumnInTable { column: "w".to_string(), table: "t".to_string() }));
}

#[test]
fn secondary_index_serves_where_lookups() {
    let mut s = Session::new();
    s.run("CREATE TABLE t(id INT, city TEXT)").unwrap();
    s.run("INSERT INTO t VALUES(1, 'paris')").unwrap();
    s.run("INSERT INTO t VALUES(2, 'rome')").unwrap();
    let msg = s.run("CREATE INDEX idx_city ON t(city)").unwrap();
    assert_eq!(msg, "Query OK, index 'idx_city' created on 'public.t(city)'.");
    assert_eq!(s.db.get(b"__secidx__:t:city:paris").unwrap(), Some(b"1".to_vec()));
    s.run("INSERT INTO t VALUES(3, 'paris')").unwrap();
    assert_eq!(s.db.get(b"__secidx__:t:city:paris").unwrap(), Some(b"1\x1F3".to_vec()));
    let res = s.run("SELECT * FROM t WHERE city = 'paris'").unwrap();
    assert!(res.contains("| 1 | paris |"));
    assert!(res.contains("| 3 | paris |"));
    assert!(!res.contains("rome"));
    assert_eq!(s.run("CREATE INDEX idx_city ON t(city)"), Err(QueryError::IndexExists { name: "idx_city".to_string() }));
    s.run("DELETE FROM t WHERE id = 1").unwrap();
    assert_eq!(s.db.get(b"__secidx__:t:city:paris").unwrap(), Some(b"3".to_vec()));
}

#[test]
fn join_combines_rows() {
    let mut s = Session::new();
    s.run("CREATE TABLE users(id INT, name TEXT)").unwrap();
    s.run("CREATE TABLE orders(oid INT, uid INT)").unwrap();
    s.run("INSERT INTO users VALUES(1, 'ann')").unwrap();
    s.run("INSERT INTO users VALUES(2, 'bob')").unwrap();
    s.run("INSERT INTO orders VALUES(10, 1)").unwrap();
    let inner = s.run("SELECT * FROM users JOIN orders ON users.id = orders.uid").unwrap();
    assert!(inner.contains("| 1 | ann | 10 | 1 |"));
    assert!(!inner.contains("bob"));
    let left = s.run("SELECT * FROM users LEFT JOIN orders ON users.id = orders.uid").unwrap();
    assert!(left.contains("| 2 | bob | NULL | NULL |"));
}

#[test]
fn drop_table_removes_rows_and_description() {
    let mut s = Session::new();
    s.run("CREATE TABLE t(id INT)").unwrap();
    s.run("INSERT INTO t VALUES(1)").unwrap();
    assert_eq!(s.run("DROP TABLE t").unwrap(), "Query OK, table 't' dropped.");
    assert!(s.db.get(b"t:1").unwrap().is_none());
    assert_eq!(s.run("SELECT * FROM t"), Err(QueryError::NoSuchTable { name: "t".to_string() }));
    assert_eq!(s.run("DROP TABLE t"), Err(QueryError::NoSuchTable { name: "t".to_string() }));
}

#[test]
fn show_tables_lists_default_schema_tables() {
    let mut s = Session::new();
    s.run("CREATE TABLE b(id INT)").unwrap();
    s.run("CREATE TABLE a(id INT)").unwrap();
    let out = s.run("SHOW TABLES").unwrap();
    assert_eq!(out, "+-----------------+\n| Tables |\n+-----------------+\n| a |\n| b |\n+-----------------+\n2 table(s) in set.");
}

#[test]
fn list_output_exact_text() {
    let items = vec!["public".to_string()];
    assert_eq!(
        list_output("Schemas", &items, " schema(s) in set."),
        "+-----------------+\n| Schemas |\n+-----------------+\n| public |\n+-----------------+\n1 schema(s) in set."
    );
}

#[test]
fn format_table_output_exact_text() {
    let headers = vec!["id".to_string(), "name".to_string()];
    let rows = vec![vec!["1".to_string(), "a".to_string()], vec!["2".to_string(), "b".to_string()]];
    assert_eq!(
        format_table_output(&headers, &rows),
        "+-----------------+\n| id | name |\n+-----------------+\n| 1 | a |\n| 2 | b |\n+-----------------+\n2 row(s) in set."
    );
}

#[test]
fn finish_select_applies_limit_and_offset() {
    let names = vec!["v".to_string()];
    let rows: Vec<Vec<String>> = (0..5).map(|i| vec![i.to_string()]).collect();
    let out = finish_select(&names, rows.clone(), Some((2, 1)));
    assert_eq!(out, "+-----------------+\n| v |\n+-----------------+\n| 1 |\n| 2 |\n+-----------------+\n2 row(s) in set.");
    let out = finish_select(&names, rows, Some((10, 7)));
    assert!(out.ends_with("0 row(s) in set."));
}

#[test]
fn parse_qualified_names() {
    assert_eq!(parse_qualified_table_name(" a . b "), ("a".to_string(), "b".to_string()));
    assert_eq!(parse_qualified_table_name(" t "), ("public".to_string(), "t".to_string()));
}

#[test]
fn parse_column_definitions() {
    let c = parse_column_def("id INT PRIMARY KEY");
    assert_eq!(c.name, "id");
    assert_eq!(c.data_type, DataType::Int);
    assert!(c.is_primary_key && !c.is_nullable && c.is_unique);
    let c = parse_column_def("name varchar(20) not null");
    assert_eq!(c.data_type, DataType::Text);
    assert!(!c.is_nullable && !c.is_primary_key);
    let c = parse_column_def("x");
    assert_eq!(c.data_type, DataType::Text);
    assert!(c.is_nullable);
}

#[test]
fn column_positions() {
    let names = vec!["a".to_string(), "b".to_string(), "a".to_string()];
    assert_eq!(column_position(&names, "a"), Some(0));
    assert_eq!(column_position(&names, "b"), Some(1));
    assert_eq!(column_position(&names, "c"), None);
}

#[test]
fn aggregates_resolve_against_columns() {
    let names = vec!["id".to_string(), "price".to_string()];
    assert_eq!(resolve_aggregate("COUNT", "*", &names), Ok(AggregateFunc::Count));
    assert_eq!(resolve_aggregate("SUM", "price", &names), Ok(AggregateFunc::Sum(1)));
    assert_eq!(resolve_aggregate("AVG", "id", &names), Ok(AggregateFunc::Avg(0)));
    assert_eq!(resolve_aggregate("AVG", "nope", &names), Err(QueryError::NoSuchColumn { column: "nope".to_string() }));
    assert_eq!(resolve_aggregate("MAX", "id", &names), Err(QueryError::UnsupportedAggregate { func: "MAX".to_string() }));
}

#[test]
fn cell_values_check_by_type() {
    assert_eq!(check_value(" null ", &DataType::Int), Ok(true));
    assert_eq!(check_value("-2147483648", &DataType::Int), Ok(false));
    assert_eq!(check_value("2147483648", &DataType::Int), Err(()));
    assert_eq!(check_value("+7", &DataType::Int), Ok(false));
    assert_eq!(check_value("-", &DataType::Int), Err(()));
    assert_eq!(check_value("9223372036854775807", &DataType::BigInt), Ok(false));
    assert_eq!(check_value("9223372036854775808", &DataType::BigInt), Err(()));
    assert_eq!(check_value("1.5e-3", &DataType::Float), Ok(false));
    assert_eq!(check_value(".5", &DataType::Float), Ok(false));
    assert_eq!(check_value("5.", &DataType::Float), Ok(false));
    assert_eq!(check_value("-Infinity", &DataType::Float), Ok(false));
    assert_eq!(check_value("NaN", &DataType::Float), Ok(false));
    assert_eq!(check_value("1e", &DataType::Float), Err(()));
    assert_eq!(check_value(".", &DataType::Float), Err(()));
    assert_eq!(check_value("1.2.3", &DataType::Float), Err(()));
    assert_eq!(check_value("'x'", &DataType::Text), Ok(false));
    assert_eq!(check_value("T", &DataType::Boolean), Ok(false));
    assert_eq!(check_value("yes", &DataType::Boolean), Err(()));
    // The checks agree with the standard parsers.
    for raw in ["1.5e-3", ".5", "5.", "inf", "-nan", "1e", ".", "1.2.3", "+.e1", "1E+5", "0x10"] {
        assert_eq!(check_value(raw, &DataType::Float).is_ok(), raw.parse::<f64>().is_ok(), "{}", raw);
    }
    for raw in ["0", "-0", "+12", "2147483647", "-2147483649", "", "1_0"] {
        assert_eq!(check_value(raw, &DataType::Int).is_ok(), raw.parse::<i32>().is_ok(), "{}", raw);
    }
}

#[test]
fn rows_check_against_a_description() {
    let cols = vec![
        ColumnDef::new("id".to_string(), DataType::Int).with_nullable(false),
        ColumnDef::new("note".to_string(), DataType::Text),
    ];
    assert_eq!(check_row(&cols, &["1".to_string(), "NULL".to_string()]), Ok(()));
    assert_eq!(check_row(&cols, &["1".to_string()]), Err(QueryError::ColumnCount { expected: 2, got: 1 }));
    assert_eq!(
        check_row(&cols, &["NULL".to_string(), "x".to_string()]),
        Err(QueryError::NotNull { column: "id".to_string() })
    );
}

#[test]
fn legacy_descriptions_round_trip_through_the_catalog() {
    let schema = TableSchema::new(
        "public".to_string(),
        "t".to_string(),
        vec![ColumnDef::new("id".to_string(), DataType::Int), ColumnDef::new("v".to_string(), DataType::Float)],
    );
    assert_eq!(CatalogManager::legacy_definition(&schema), "id INTEGER,v FLOAT");
    let back = CatalogManager::legacy_schema("t", "id INTEGER,v FLOAT");
    assert_eq!(back, schema);
    let odd = CatalogManager::legacy_schema("t", " ,x blob");
    assert_eq!(odd.columns[0].name, "col");
    assert_eq!(odd.columns[1].data_type, DataType::Text);
}

#[test]
fn stored_descriptions_are_found() {
    let mut s = Session::new();
    s.run("CREATE TABLE t(id INT)").unwrap();
    match CatalogManager::lookup_table_schema(&mut s.db, "public", "T").unwrap() {
        StoredSchema::Serialized(b) => assert_eq!(b, b"{}".to_vec()),
        _ => panic!("expected the catalog entry"),
    }
    assert!(matches!(CatalogManager::lookup_table_schema(&mut s.db, "other", "t").unwrap(), StoredSchema::Missing));
    s.db.put(b"__schema__:old", b"a INT,b TEXT").unwrap();
    match CatalogManager::lookup_table_schema(&mut s.db, "public", "old").unwrap() {
        StoredSchema::Legacy(ts) => assert_eq!(ts.columns.len(), 2),
        _ => panic!("expected the legacy entry"),
    }
}

#[test]
fn rows_group_by_first_appearance() {
    let rows = vec![
        vec!["a".to_string(), "1".to_string()],
        vec!["b".to_string(), "2".to_string()],
        vec!["a".to_string(), "3".to_string()],
        vec![],
    ];
    let groups = group_rows(&rows, 0);
    assert_eq!(groups.len(), 2);
    assert_eq!(groups[0].0, "a");
    assert_eq!(groups[0].1, vec![rows[0].clone(), rows[2].clone()]);
    assert_eq!(groups[1].0, "b");
    assert_eq!(groups[1].1, vec![rows[1].clone()]);
}

#[test]
fn column_rows_describe_each_column() {
    let schema = TableSchema::new(
        "public".to_string(),
        "t".to_string(),
        vec![ColumnDef::new("id".to_string(), DataType::Int).with_nullable(false), ColumnDef::new("v".to_string(), DataType::Text)],
    );
    let rows = CatalogManager::column_rows("public", "t", &schema);
    assert_eq!(rows[0], vec!["magnumdb", "public", "t", "id", "1", "INTEGER", "NO", "NULL"]);
    assert_eq!(rows[1], vec!["magnumdb", "public", "t", "v", "2", "TEXT", "YES", "NULL"]);
}

#[test]
fn delete_inside_a_transaction_hides_the_row_until_rollback() {
    let mut s = Session::new();
    s.run("CREATE TABLE t(id INT, v TEXT)").unwrap();
    s.run("INSERT INTO t VALUES(1, 'keep')").unwrap();
    s.run("BEGIN").unwrap();
    assert_eq!(s.run("DELETE FROM t WHERE id = 1").unwrap(), "Query OK, 1 row deleted.");
    assert!(!s.run("SELECT * FROM t").unwrap().contains("keep"));
    s.run("ROLLBACK").unwrap();
    assert!(s.run("SELECT * FROM t").unwrap().contains("| 1 | keep |"));
}

#[test]
fn update_inside_a_transaction_is_read_back() {
    let mut s = Session::new();
    s.run("CREATE TABLE t(id INT, v TEXT)").unwrap();
    s.run("INSERT INTO t VALUES(1, 'old')").unwrap();
    s.run("BEGIN").unwrap();
    s.run("UPDATE t SET v = 'new' WHERE id = 1").unwrap();
    assert!(s.run("SELECT * FROM t").unwrap().contains("| 1 | new |"));
    s.run("COMMIT").unwrap();
    assert!(s.run("SELECT * FROM t").unwrap().contains("| 1 | new |"));
}

#[test]
fn select_where_without_index_filters_rows() {
    let mut s = Session::new();
    s.run("CREATE TABLE t(id INT, v TEXT)").unwrap();
    s.run("INSERT INTO t VALUES(1, 'a')").unwrap();
    s.run("INSERT INTO t VALUES(2, 'b')").unwrap();
    let out = s.run("SELECT * FROM t WHERE v = 'b'").unwrap();
    assert_eq!(out, "+-----------------+\n| id | v |\n+-----------------+\n| 2 | b |\n+-----------------+\n1 row(s) in set.");
    assert_eq!(s.run("SELECT * FROM t WHERE w = 'b'"), Err(QueryError::NoSuchColumn { column: "w".to_string() }));
}

#[test]
fn test_default_config_listens_on_5432() {
    let c = Config::default();
    assert_eq!(c.network.host, "127.0.0.1");
    assert_eq!(c.network.port, 5432);
}

#[test]
fn test_catalog_keys_fold_unicode_case() {
    assert_eq!(CatalogManager::schema_key("Analytics"), "__catalog__:schema:analytics");
    assert_eq!(CatalogManager::schema_key("\u{c9}T\u{c9}"), "__catalog__:schema:\u{e9}t\u{e9}");
    assert_eq!(CatalogManager::schema_key("\u{c9}"), CatalogManager::schema_key("\u{e9}"));
}

#[test]
fn test_parse_folds_unicode_case() {
    assert_eq!(Parser::parse("\u{17f}how tables").unwrap(), Statement::ShowTables);
    assert_eq!(Parser::parse("commit;").unwrap(), Statement::Commit);
    assert!(Parser::parse("EXPLAIN SELECT 1").is_err());
}

#[test]
fn test_data_type_folds_unicode_case() {
    assert_eq!(DataType::from_str("\u{131}nt").unwrap(), DataType::Int);
    assert_eq!(DataType::from_str("text").unwrap(), DataType::Text);
    assert!(DataType::from_str("blob").is_err());
}

#[test]
fn test_error_messages_are_the_statement_texts() {
    assert_eq!(
        QueryError::ColumnCount { expected: 2, got: 1 }.message(),
        Some("Column count mismatch: expected 2, got 1".to_string())
    );
    assert_eq!(
        QueryError::NoSuchTable { name: "fake".to_string() }.message(),
        Some("Table 'fake' does not exist".to_string())
    );
    assert_eq!(
        QueryError::InvalidValue { raw: "invalid_num".to_string(), data_type: DataType::Int }.message(),
        Some("Cannot parse 'invalid_num' as INT".to_string())
    );
    assert_eq!(
        QueryError::NotNull { column: "name".to_string() }.message(),
        Some("Constraint Violation: Column 'name' cannot be NULL".to_string())
    );
    assert_eq!(ParseError::UnrecognizedStatement.message(), "Syntax Error: Unrecognized statement");
    assert_eq!(
        ParseError::ReservedPrefix { identifier: "__x".to_string() }.message(),
        "Identifier '__x' uses reserved prefix '__'. Choose a different name."
    );
}

#[test]
fn test_tx_ids_increase() {
    let mut c = TxIdCounter::new();
    assert_eq!(c.next_id(), 1);
    assert_eq!(c.next_id(), 2);
    assert_eq!(c.next_id(), 3);
}

#[test]
fn test_delete_outside_transaction_removes_stored_row() {
    let mut s = Session::new();
    s.run("CREATE TABLE users(id INT, name TEXT)").unwrap();
    s.run("INSERT INTO users VALUES(1, 'John')").unwrap();
    assert!(s.db.get(b"users:1").unwrap().is_some());
    let reply = s.run("DELETE FROM users WHERE id = 1").unwrap();
    assert!(reply.contains("1 row"));
    assert_eq!(s.db.get(b"users:1").unwrap(), None);
}

#[test]
fn test_commit_writes_pending_rows_to_store() {
    let mut s = Session::new();
    s.run("CREATE TABLE users(id INT, name TEXT)").unwrap();
    s.run("BEGIN").unwrap();
    s.run("INSERT INTO users VALUES(2, 'Bob')").unwrap();
    assert_eq!(s.db.get(b"users:2").unwrap(), None);
    s.run("COMMIT").unwrap();
    let stored = s.db.get(b"users:2").unwrap().unwrap();
    assert!(String::from_utf8_lossy(&stored).contains("Bob"));
}

#[test]
fn test_count_text_is_row_count() {
    let rows: Vec<Vec<String>> = (0..12).map(|i| vec![i.to_string()]).collect();
    assert_eq!(count_text(&rows), "12");
    assert_eq!(count_text(&[]), "0");
}

#[test]
fn create_index_on_an_empty_table_registers_it() {
    let mut s = Session::new();
    s.run("CREATE TABLE t(id INT, city TEXT)").unwrap();
    let msg = s.run("CREATE INDEX idx_city ON t(city)").unwrap();
    assert_eq!(msg, "Query OK, index 'idx_city' created on 'public.t(city)'.");
    assert_eq!(s.db.get(b"__index__:t:idx_city").unwrap(), Some(b"city".to_vec()));
}

#[test]
fn drop_table_inside_a_transaction_succeeds() {
    let mut s = Session::new();
    s.run("CREATE TABLE t(id INT)").unwrap();
    s.run("INSERT INTO t VALUES(1)").unwrap();
    s.run("BEGIN").unwrap();
    assert_eq!(s.run("DROP TABLE t").unwrap(), "Query OK, table 't' dropped.");
    assert_eq!(s.run("SELECT * FROM t"), Err(QueryError::NoSuchTable { name: "t".to_string() }));
    s.run("COMMIT").unwrap();
    assert!(s.db.get(b"__schema__:t").unwrap().is_none());
    assert!(s.db.get(b"t:1").unwrap().is_none());
}

#[test]
fn update_inside_a_transaction_moves_the_index_entry() {
    let mut s = Session::new();
    s.run("CREATE TABLE t(id INT, city TEXT)").unwrap();
    s.run("INSERT INTO t VALUES(1, 'paris')").unwrap();
    s.run("CREATE INDEX idx_city ON t(city)").unwrap();
    s.run("BEGIN").unwrap();
    assert_eq!(s.run("UPDATE t SET city = 'rome' WHERE id = 1").unwrap(), "Query OK, 1 row updated.");
    s.run("COMMIT").unwrap();
    assert_eq!(s.db.get(b"__secidx__:t:city:rome").unwrap(), Some(b"1".to_vec()));
    assert!(s.run("SELECT * FROM t WHERE city = 'rome'").unwrap().contains("| 1 | rome |"));
}

#[test]
fn aggregate_table_frames_one_row() {
    assert_eq!(
        aggregate_table("COUNT", "*", &["3".to_string()]),
        "+-----------------+\n| COUNT(*) |\n+-----------------+\n| 3 |\n+-----------------+\n1 row in set."
    );
    assert_eq!(
        aggregate_table("SUM", "v", &["1".to_string(), "2".to_string()]),
        "+-----------------+\n| SUM(v) |\n+-----------------+\n| 1 | 2 |\n+-----------------+\n1 row in set."
    );
}
