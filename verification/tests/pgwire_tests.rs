use magnumdb::network::pgwire::{
    error_response_message, make_parameter_status, parse_p_message, query_response_bytes, try_parse_b_message, PgAction,
    PgSession,
};
use magnumdb::network::server::{classify_frame, FrameStart};
use magnumdb::network::pgwire::substitute_params;
use magnumdb::network::pgwire::{startup_greeting, startup_step, StartupStep};

#[test]
fn test_substitute_params() {
    let sql = "SELECT * FROM users WHERE id = $1 AND name = $2";
    let params = vec!["1".to_string(), "'Alice'".to_string()];
    let substituted = substitute_params(sql, &params);
    assert_eq!(substituted, "SELECT * FROM users WHERE id = 1 AND name = 'Alice'");
}

#[test]
fn substitute_params_replaces_every_occurrence() {
    let params = vec!["7".to_string()];
    assert_eq!(substitute_params("$1 + $1", &params), "7 + 7");
}

fn p_body(name: &str, sql: &str) -> Vec<u8> {
    let mut b = Vec::new();
    b.extend_from_slice(name.as_bytes());
    b.push(0);
    b.extend_from_slice(sql.as_bytes());
    b.push(0);
    b.extend_from_slice(&0u16.to_be_bytes());
    b
}

fn b_body(stmt: &str, params: &[&str]) -> Vec<u8> {
    let mut b = vec![0u8]; // unnamed portal
    b.extend_from_slice(stmt.as_bytes());
    b.push(0);
    b.extend_from_slice(&0u16.to_be_bytes()); // no format codes
    b.extend_from_slice(&(params.len() as u16).to_be_bytes());
    for p in params {
        b.extend_from_slice(&(p.len() as i32).to_be_bytes());
        b.extend_from_slice(p.as_bytes());
    }
    b
}

#[test]
fn parse_message_reads_name_and_template() {
    assert_eq!(parse_p_message(&p_body("s1", "SELECT $1")), ("s1".to_string(), "SELECT $1".to_string()));
    assert_eq!(parse_p_message(b"only"), ("only".to_string(), String::new()));
}

#[test]
fn bind_message_reads_name_and_parameters() {
    let body = b_body("s1", &["42", "x"]);
    assert_eq!(try_parse_b_message(&body), Some(("s1".to_string(), vec!["42".to_string(), "x".to_string()])));
    assert_eq!(try_parse_b_message(b"no zero byte"), None);
}

#[test]
fn parameter_status_and_error_messages() {
    assert_eq!(
        make_parameter_status("a", "b"),
        vec![b'S', 0, 0, 0, 8, b'a', 0, b'b', 0]
    );
    assert_eq!(
        error_response_message("oops"),
        vec![b'E', 0, 0, 0, 14, b'S', b'E', 0, b'M', b'o', b'o', b'p', b's', 0, 0]
    );
}

#[test]
fn session_prepares_binds_and_executes() {
    let mut s = PgSession::new();
    assert_eq!(s.on_message(b'E', &[]), PgAction::Reply(vec![b'C', 0, 0, 0, 13, b'S', b'E', b'L', b'E', b'C', b'T', b' ', b'1', 0, b'Z', 0, 0, 0, 5, b'I']));
    assert_eq!(s.on_message(b'P', &p_body("s1", "SELECT * FROM t WHERE id = $1")), PgAction::Reply(vec![b'1', 0, 0, 0, 4]));
    assert_eq!(s.on_message(b'B', &b_body("s1", &["7"])), PgAction::Reply(vec![b'2', 0, 0, 0, 4]));
    assert_eq!(s.on_message(b'E', &[]), PgAction::Execute("SELECT * FROM t WHERE id = 7".to_string()));
    // An unknown name falls back to the unnamed statement.
    s.on_message(b'P', &p_body("", "DELETE FROM t WHERE id = $1"));
    s.on_message(b'B', &b_body("nope", &["9"]));
    assert_eq!(s.on_message(b'E', &[]), PgAction::Execute("DELETE FROM t WHERE id = 9".to_string()));
    // Preparing a name again replaces its template.
    s.on_message(b'P', &p_body("s1", "SELECT $1"));
    s.on_message(b'B', &b_body("s1", &["1"]));
    assert_eq!(s.on_message(b'E', &[]), PgAction::Execute("SELECT 1".to_string()));
    assert_eq!(s.template("s1"), Some("SELECT $1".to_string()));
}

#[test]
fn session_simple_query_sync_and_terminate() {
    let mut s = PgSession::new();
    assert_eq!(s.on_message(b'Q', b"  SELECT 1;  \0"), PgAction::Execute("SELECT 1;".to_string()));
    assert_eq!(s.on_message(b'S', &[]), PgAction::Reply(vec![b'Z', 0, 0, 0, 5, b'I']));
    assert_eq!(s.on_message(b'X', &[]), PgAction::Terminate);
    assert_eq!(s.on_message(b'H', &[]), PgAction::Ignore);
}

#[test]
fn query_response_of_a_table() {
    let out = "+-----------------+\n| id | name |\n+-----------------+\n| 1 | ab |\n+-----------------+\n1 row(s) in set.";
    let bytes = query_response_bytes(out);
    let mut expected = vec![b'T'];
    let mut desc = vec![0u8, 2];
    for col in ["id", "name"] {
        desc.extend_from_slice(col.as_bytes());
        desc.extend_from_slice(&[0, 0, 0, 0, 0, 0, 0, 0, 0, 0, 25, 255, 255, 255, 255, 255, 255, 0, 0]);
    }
    expected.extend_from_slice(&((desc.len() + 4) as i32).to_be_bytes());
    expected.extend_from_slice(&desc);
    let row = vec![0u8, 2, 0, 0, 0, 1, b'1', 0, 0, 0, 2, b'a', b'b'];
    expected.push(b'D');
    expected.extend_from_slice(&((row.len() + 4) as i32).to_be_bytes());
    expected.extend_from_slice(&row);
    expected.extend_from_slice(&[b'C', 0, 0, 0, 13, b'S', b'E', b'L', b'E', b'C', b'T', b' ', b'1', 0]);
    assert_eq!(bytes, expected);
}

#[test]
fn query_response_of_a_message_is_command_complete() {
    assert_eq!(
        query_response_bytes("Query OK, 1 row inserted."),
        vec![b'C', 0, 0, 0, 13, b'S', b'E', b'L', b'E', b'C', b'T', b' ', b'1', 0]
    );
}

#[test]
fn frames_are_classified() {
    assert_eq!(classify_frame(8i32.to_be_bytes()), FrameStart::Postgres);
    assert_eq!(classify_frame(10000i32.to_be_bytes()), FrameStart::Postgres);
    assert_eq!(classify_frame(20u32.to_le_bytes()), FrameStart::Query(20));
    assert_eq!(classify_frame((16 * 1024 * 1024 + 1u32).to_le_bytes()), FrameStart::Oversized);
}

#[test]
fn test_startup_step_decisions() {
    assert_eq!(startup_step(&[0, 0, 0, 7], &[0, 0, 0, 0]), StartupStep::Close);
    assert_eq!(startup_step(&[0, 0, 0, 8], &[4, 210, 22, 47]), StartupStep::DeclineSsl);
    assert_eq!(startup_step(&[0, 0, 0, 40], &[0, 3, 0, 0]), StartupStep::Greet);
}

#[test]
fn test_startup_greeting_matches_parameter_status() {
    let mut expected = vec![b'R', 0, 0, 0, 8, 0, 0, 0, 0];
    expected.extend_from_slice(&make_parameter_status("server_version", "15.0"));
    expected.extend_from_slice(&[b'Z', 0, 0, 0, 5, b'I']);
    assert_eq!(startup_greeting(), expected);
}
