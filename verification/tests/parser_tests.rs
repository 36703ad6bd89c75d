use magnumdb::sql::parser::{ParseError, Parser, Statement};

#[test]
fn test_parse_order_by_limit_offset() {
    let stmt = Parser::parse("SELECT * FROM users ORDER BY age DESC LIMIT 10 OFFSET 5").unwrap();
    assert_eq!(
        stmt,
        Statement::Select {
            table_name: "users".to_string(),
            where_clause: None,
            order_by: Some(("age".to_string(), true)),
            limit_offset: Some((10, 5)),
        }
    );
}

#[test]
fn test_parse_create_schema() {
    let stmt = Parser::parse("CREATE SCHEMA analytics").unwrap();
    assert_eq!(
        stmt,
        Statement::CreateSchema {
            schema_name: "analytics".to_string(),
        }
    );
}

#[test]
fn parse_create_table_splits_columns() {
    let stmt = Parser::parse("CREATE TABLE users(id INT, name TEXT);").unwrap();
    assert_eq!(
        stmt,
        Statement::CreateTable {
            table_name: "users".to_string(),
            columns: vec!["id INT".to_string(), "name TEXT".to_string()],
        }
    );
}

#[test]
fn parse_insert_respects_quotes() {
    let stmt = Parser::parse("INSERT INTO notes VALUES(1, 'hello, world', 'it''s')").unwrap();
    assert_eq!(
        stmt,
        Statement::Insert {
            table_name: "notes".to_string(),
            values: vec!["1".to_string(), "hello, world".to_string(), "it's".to_string()],
        }
    );
}

#[test]
fn parse_rejects_unterminated_string() {
    assert_eq!(
        Parser::parse("INSERT INTO notes VALUES(1, 'oops)"),
        Err(ParseError::UnterminatedString)
    );
}

#[test]
fn parse_rejects_reserved_prefix() {
    assert_eq!(
        Parser::parse("CREATE TABLE __secret(id INT)"),
        Err(ParseError::ReservedPrefix { identifier: "__secret".to_string() })
    );
}

#[test]
fn parse_select_range_and_where() {
    assert_eq!(
        Parser::parse("SELECT * FROM t WHERE age >= '30'").unwrap(),
        Statement::SelectRange {
            table_name: "t".to_string(),
            column: "age".to_string(),
            op: ">=".to_string(),
            val: "30".to_string(),
        }
    );
    assert_eq!(
        Parser::parse("select * from t where name = 'Bob'").unwrap(),
        Statement::Select {
            table_name: "t".to_string(),
            where_clause: Some(("name".to_string(), "Bob".to_string())),
            order_by: None,
            limit_offset: None,
        }
    );
}

#[test]
fn parse_join_and_group_by() {
    assert_eq!(
        Parser::parse("SELECT * FROM a LEFT JOIN b ON a.id = b.aid").unwrap(),
        Statement::SelectJoin {
            left_table: "a".to_string(),
            right_table: "b".to_string(),
            left_col: "id".to_string(),
            right_col: "aid".to_string(),
            is_left_join: true,
        }
    );
    assert_eq!(
        Parser::parse("SELECT dept, COUNT(*) FROM emp WHERE active = 1 GROUP BY dept HAVING > 2").unwrap(),
        Statement::SelectGroupAggregate {
            group_col: "dept".to_string(),
            func: "COUNT".to_string(),
            agg_col: "*".to_string(),
            table_name: "emp".to_string(),
            where_clause: Some(("active".to_string(), "1".to_string())),
            having_clause: Some((">".to_string(), "2".to_string())),
        }
    );
}

#[test]
fn parse_aggregate_update_delete_drop() {
    assert_eq!(
        Parser::parse("SELECT sum(price) FROM items").unwrap(),
        Statement::SelectAggregate {
            func: "SUM".to_string(),
            column: "price".to_string(),
            table_name: "items".to_string(),
            where_clause: None,
        }
    );
    assert_eq!(
        Parser::parse("UPDATE t SET name = 'x' WHERE id = 3").unwrap(),
        Statement::Update {
            table_name: "t".to_string(),
            column: "name".to_string(),
            value: "x".to_string(),
            pk_val: "3".to_string(),
        }
    );
    assert_eq!(
        Parser::parse("DELETE FROM t WHERE id = 3").unwrap(),
        Statement::Delete { table_name: "t".to_string(), pk_val: "3".to_string() }
    );
    assert_eq!(
        Parser::parse("DROP TABLE t").unwrap(),
        Statement::DropTable { table_name: "t".to_string() }
    );
    assert_eq!(Parser::parse("show tables").unwrap(), Statement::ShowTables);
    assert_eq!(Parser::parse("BEGIN;").unwrap(), Statement::Begin);
    assert_eq!(Parser::parse("EXPLAIN x"), Err(ParseError::UnrecognizedStatement));
}

#[test]
fn try_parse_flags_brackets_out_of_order() {
    assert!(Parser::try_parse("CREATE TABLE t) (").is_none());
    assert!(Parser::try_parse("CREATE TABLE t (a INT)").is_some());
}

#[test]
fn reserved_or_empty_names_are_refused() {
    assert_eq!(
        Parser::parse("CREATE SCHEMA __sys"),
        Err(ParseError::ReservedPrefix { identifier: "__sys".to_string() })
    );
    assert_eq!(
        Parser::parse("drop table   __t ;"),
        Err(ParseError::ReservedPrefix { identifier: "__t".to_string() })
    );
    assert_eq!(Parser::parse("DROP TABLE   "), Err(ParseError::EmptyIdentifier));
    assert_eq!(
        Parser::parse("CREATE SCHEMA analytics"),
        Ok(Statement::CreateSchema { schema_name: "analytics".to_string() })
    );
}
