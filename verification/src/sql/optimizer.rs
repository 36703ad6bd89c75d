//! Choice of the access path of a query.
use crate::sql::parser::Statement;
use crate::storage::{Database, DbError};
use crate::text::{chars_of, string_of};
use vstd::prelude::*;
use vstd::utf8::encode_utf8;

verus! {

/// How a table is read.
#[derive(Debug, Clone)]
pub enum ExecutionStrategy {
    /// Every row of the table.
    SeqScan,
    /// Through the secondary index of the named column.
    IndexScan(String),
}

/// Chooses execution strategies.
pub struct Optimizer;

/// The key that registers an index on `column` of `table`.
pub open spec fn index_key(table: Seq<char>, column: Seq<char>) -> Seq<char> {
    "__index__:"@ + table + ":"@ + column
}

fn push_chars(out: &mut Vec<char>, s: &str)
    ensures
        final(out)@ == old(out)@ + s@,
{
    let cs = chars_of(s);
    let mut i: usize = 0;
    while i < cs.len()
        invariant
            i <= cs@.len(),
            cs@ == s@,
            out@ == old(out)@ + s@.take(i as int),
        decreases cs@.len() - i,
    {
        out.push(cs[i]);
        i = i + 1;
        assert(out@ =~= old(out)@ + s@.take(i as int));
    }
    assert(s@.take(i as int) =~= s@);
}

impl Optimizer {
    /// An index scan on the filter column when an index on it is registered, else a
    /// sequential scan.
    pub fn plan_select(db: &mut Database, table_name: &str, filter_col: Option<&str>) -> (r: Result<ExecutionStrategy, DbError>)
        requires
            old(db).wf(),
        ensures
            final(db).wf(),
            filter_col is None ==> r matches Ok(ExecutionStrategy::SeqScan),
            r matches Ok(ExecutionStrategy::IndexScan(c)) ==> filter_col matches Some(f) && c@ == f@,
            filter_col matches Some(f) ==> (old(db).tree().pool().coherent() && old(db).tree().sorted_leaf_for(encode_utf8(index_key(table_name@, f@))) ==> match old(db).tree().lookup(encode_utf8(index_key(table_name@, f@))) {
                Some(Some(_)) => r matches Ok(ExecutionStrategy::IndexScan(c)) && c@ == f@,
                Some(None) => r matches Ok(ExecutionStrategy::SeqScan),
                None => r is Err,
            }),
    {
        match filter_col {
            Some(col) => {
                let mut key: Vec<char> = Vec::new();
                push_chars(&mut key, "__index__:");
                push_chars(&mut key, table_name);
                push_chars(&mut key, ":");
                push_chars(&mut key, col);
                let key_str = string_of(key.as_slice());
                let key_bytes = crate::codec::copy_bytes(key_str.as_str().as_bytes());
                match db.get(key_bytes.as_slice()) {
                    Ok(Some(_)) => Ok(ExecutionStrategy::IndexScan(string_of(chars_of(col).as_slice()))),
                    Ok(None) => Ok(ExecutionStrategy::SeqScan),
                    Err(e) => Err(e),
                }
            },
            None => Ok(ExecutionStrategy::SeqScan),
        }
    }

    /// Rewrites a statement before execution; statements are kept as they are.
    pub fn optimize(_db: &mut Database, stmt: Statement) -> (r: Statement)
        ensures
            r == stmt,
    {
        stmt
    }
}

} // verus!
