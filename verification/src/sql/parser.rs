//! The SQL statement parser.
//!
//! Statements are recognised by keyword, compared case-insensitively (ASCII case folding);
//! positions are counted in characters.
use crate::text::{strings_view, 
    chars_eq, chars_of, find, find_exec, occurs_at_exec, parse_usize, parse_usize_exec,
    rfind_char, rfind_char_exec, split_char, split_char_exec, starts_with, string_of, subseq,
    to_upper, to_unicode_upper, unicode_upper, tokens, tokens_exec, trim, trim_char, trim_char_exec, trim_chars, trim_end_char,
    trim_end_char_exec, upper, lemma_find_from_bounds, lemma_rfind_bounds,
    lemma_split_char_nonempty, lemma_trim_idempotent, lemma_tokens_are_stretches, lemma_trim_stretch,
    lemma_upper_stretch, occurs_at, is_word, lemma_tokens_of_words, lemma_trim_after_space,
};
use vstd::prelude::*;

verus! {

/// A parsed SQL statement.
#[derive(Debug, PartialEq, Clone)]
pub enum Statement {
    CreateSchema { schema_name: String },
    CreateTable { table_name: String, columns: Vec<String> },
    CreateIndex { index_name: String, table_name: String, columns: Vec<String> },
    Insert { table_name: String, values: Vec<String> },
    Select {
        table_name: String,
        where_clause: Option<(String, String)>,
        order_by: Option<(String, bool)>,
        limit_offset: Option<(usize, usize)>,
    },
    SelectRange { table_name: String, column: String, op: String, val: String },
    SelectAggregate {
        func: String,
        column: String,
        table_name: String,
        where_clause: Option<(String, String)>,
    },
    SelectGroupAggregate {
        group_col: String,
        func: String,
        agg_col: String,
        table_name: String,
        where_clause: Option<(String, String)>,
        having_clause: Option<(String, String)>,
    },
    SelectJoin {
        left_table: String,
        right_table: String,
        left_col: String,
        right_col: String,
        is_left_join: bool,
    },
    Update { table_name: String, column: String, value: String, pk_val: String },
    Delete { table_name: String, pk_val: String },
    DropTable { table_name: String },
    ShowTables,
    ShowSchemas,
    Begin,
    Commit,
    Rollback,
}

/// The SQL parser.
pub struct Parser;

/// Why a statement was rejected.
#[derive(Debug, PartialEq, Clone)]
pub enum ParseError {
    UnrecognizedStatement,
    ReservedPrefix { identifier: String },
    EmptyIdentifier,
    InvalidCreateTable,
    MissingColumnDefinitions,
    MissingOnInCreateIndex,
    MissingOpenParenInCreateIndex,
    MissingCloseParenInCreateIndex,
    MissingValues,
    ValuesNotParenthesized,
    UnterminatedString,
    MissingFrom,
    MissingOnInJoin,
    InvalidJoinCondition,
    GroupByTargets,
    InvalidGroupByAggregate,
    InvalidHaving { condition: String },
    ExpectedEquals { expression: String },
    MissingSet,
    MissingWhereInUpdate,
    MissingWhereInDelete,
}

/// The message that rejecting a statement for `e` gives.
pub open spec fn parse_message(e: ParseError) -> Seq<char> {
    match e {
        ParseError::UnrecognizedStatement => "Syntax Error: Unrecognized statement"@,
        ParseError::ReservedPrefix { identifier } => "Identifier '"@ + identifier@ + "' uses reserved prefix '__'. Choose a different name."@,
        ParseError::EmptyIdentifier => "Identifier cannot be empty"@,
        ParseError::InvalidCreateTable => "Syntax Error: Invalid CREATE TABLE syntax"@,
        ParseError::MissingColumnDefinitions => "Syntax Error: Missing column definitions"@,
        ParseError::MissingOnInCreateIndex => "Syntax Error: Missing ON keyword in CREATE INDEX"@,
        ParseError::MissingOpenParenInCreateIndex => "Syntax Error: Missing '(' in CREATE INDEX"@,
        ParseError::MissingCloseParenInCreateIndex => "Syntax Error: Missing ')' in CREATE INDEX"@,
        ParseError::MissingValues => "Syntax Error: Missing VALUES keyword"@,
        ParseError::ValuesNotParenthesized => "Syntax Error: VALUES must be enclosed in parentheses"@,
        ParseError::UnterminatedString => "Syntax Error: Unterminated string literal"@,
        ParseError::MissingFrom => "Syntax Error: Missing FROM keyword"@,
        ParseError::MissingOnInJoin => "Syntax Error: Missing ON in JOIN clause"@,
        ParseError::InvalidJoinCondition => "Syntax Error: Invalid ON condition in JOIN"@,
        ParseError::GroupByTargets => "Syntax Error: GROUP BY query expects 'group_col, FUNC(col)'"@,
        ParseError::InvalidGroupByAggregate => "Invalid agg func in GROUP BY"@,
        ParseError::InvalidHaving { condition } => "Syntax Error: Invalid HAVING condition '"@ + condition@ + "'"@,
        ParseError::ExpectedEquals { expression } => "Syntax Error: Expected '=' in expression '"@ + expression@ + "'"@,
        ParseError::MissingSet => "Syntax Error: Missing SET keyword"@,
        ParseError::MissingWhereInUpdate => "Syntax Error: Missing WHERE keyword in UPDATE"@,
        ParseError::MissingWhereInDelete => "Syntax Error: Missing WHERE clause in DELETE"@,
    }
}

fn push_text(out: &mut Vec<char>, s: &str)
    ensures
        final(out)@ == old(out)@ + s@,
{
    let cs = chars_of(s);
    let mut i: usize = 0;
    while i < cs.len()
        invariant
            i <= cs@.len(),
            cs@ == s@,
            out@ == old(out)@ + cs@.take(i as int),
        decreases cs@.len() - i,
    {
        out.push(cs[i]);
        i = i + 1;
        assert(out@ =~= old(out)@ + cs@.take(i as int));
    }
    assert(cs@.take(i as int) =~= cs@);
}

impl ParseError {
    /// The message of the rejection, as the statement's author sees it.
    pub fn message(&self) -> (r: String)
        ensures
            r@ == parse_message(*self),
    {
        let mut out: Vec<char> = Vec::new();
        match self {
            ParseError::UnrecognizedStatement => {
                push_text(&mut out, "Syntax Error: Unrecognized statement");
            },
            ParseError::ReservedPrefix { identifier } => {
                push_text(&mut out, "Identifier '");
                push_text(&mut out, identifier.as_str());
                push_text(&mut out, "' uses reserved prefix '__'. Choose a different name.");
            },
            ParseError::EmptyIdentifier => {
                push_text(&mut out, "Identifier cannot be empty");
            },
            ParseError::InvalidCreateTable => {
                push_text(&mut out, "Syntax Error: Invalid CREATE TABLE syntax");
            },
            ParseError::MissingColumnDefinitions => {
                push_text(&mut out, "Syntax Error: Missing column definitions");
            },
            ParseError::MissingOnInCreateIndex => {
                push_text(&mut out, "Syntax Error: Missing ON keyword in CREATE INDEX");
            },
            ParseError::MissingOpenParenInCreateIndex => {
                push_text(&mut out, "Syntax Error: Missing '(' in CREATE INDEX");
            },
            ParseError::MissingCloseParenInCreateIndex => {
                push_text(&mut out, "Syntax Error: Missing ')' in CREATE INDEX");
            },
            ParseError::MissingValues => {
                push_text(&mut out, "Syntax Error: Missing VALUES keyword");
            },
            ParseError::ValuesNotParenthesized => {
                push_text(&mut out, "Syntax Error: VALUES must be enclosed in parentheses");
            },
            ParseError::UnterminatedString => {
                push_text(&mut out, "Syntax Error: Unterminated string literal");
            },
            ParseError::MissingFrom => {
                push_text(&mut out, "Syntax Error: Missing FROM keyword");
            },
            ParseError::MissingOnInJoin => {
                push_text(&mut out, "Syntax Error: Missing ON in JOIN clause");
            },
            ParseError::InvalidJoinCondition => {
                push_text(&mut out, "Syntax Error: Invalid ON condition in JOIN");
            },
            ParseError::GroupByTargets => {
                push_text(&mut out, "Syntax Error: GROUP BY query expects 'group_col, FUNC(col)'");
            },
            ParseError::InvalidGroupByAggregate => {
                push_text(&mut out, "Invalid agg func in GROUP BY");
            },
            ParseError::InvalidHaving { condition } => {
                push_text(&mut out, "Syntax Error: Invalid HAVING condition '");
                push_text(&mut out, condition.as_str());
                push_text(&mut out, "'");
            },
            ParseError::ExpectedEquals { expression } => {
                push_text(&mut out, "Syntax Error: Expected '=' in expression '");
                push_text(&mut out, expression.as_str());
                push_text(&mut out, "'");
            },
            ParseError::MissingSet => {
                push_text(&mut out, "Syntax Error: Missing SET keyword");
            },
            ParseError::MissingWhereInUpdate => {
                push_text(&mut out, "Syntax Error: Missing WHERE keyword in UPDATE");
            },
            ParseError::MissingWhereInDelete => {
                push_text(&mut out, "Syntax Error: Missing WHERE clause in DELETE");
            },
        }
        string_of(out.as_slice())
    }
}

pub type Text = Seq<char>;

pub type Pair = (Seq<char>, Seq<char>);

/// The abstract content of a statement.
pub enum StmtView {
    CreateSchema { schema_name: Text },
    CreateTable { table_name: Text, columns: Seq<Text> },
    CreateIndex { index_name: Text, table_name: Text, columns: Seq<Text> },
    Insert { table_name: Text, values: Seq<Text> },
    Select {
        table_name: Text,
        where_clause: Option<Pair>,
        order_by: Option<(Text, bool)>,
        limit_offset: Option<(usize, usize)>,
    },
    SelectRange { table_name: Text, column: Text, op: Text, val: Text },
    SelectAggregate { func: Text, column: Text, table_name: Text, where_clause: Option<Pair> },
    SelectGroupAggregate {
        group_col: Text,
        func: Text,
        agg_col: Text,
        table_name: Text,
        where_clause: Option<Pair>,
        having_clause: Option<Pair>,
    },
    SelectJoin {
        left_table: Text,
        right_table: Text,
        left_col: Text,
        right_col: Text,
        is_left_join: bool,
    },
    Update { table_name: Text, column: Text, value: Text, pk_val: Text },
    Delete { table_name: Text, pk_val: Text },
    DropTable { table_name: Text },
    ShowTables,
    ShowSchemas,
    Begin,
    Commit,
    Rollback,
}

/// The abstract content of a parse error.
pub enum ErrView {
    UnrecognizedStatement,
    ReservedPrefix { identifier: Text },
    EmptyIdentifier,
    InvalidCreateTable,
    MissingColumnDefinitions,
    MissingOnInCreateIndex,
    MissingOpenParenInCreateIndex,
    MissingCloseParenInCreateIndex,
    MissingValues,
    ValuesNotParenthesized,
    UnterminatedString,
    MissingFrom,
    MissingOnInJoin,
    InvalidJoinCondition,
    GroupByTargets,
    InvalidGroupByAggregate,
    InvalidHaving { condition: Text },
    ExpectedEquals { expression: Text },
    MissingSet,
    MissingWhereInUpdate,
    MissingWhereInDelete,
}


pub open spec fn pair_view(p: Option<(String, String)>) -> Option<Pair> {
    match p {
        Some((a, b)) => Some((a@, b@)),
        None => None,
    }
}

impl Statement {
    pub open spec fn view(&self) -> StmtView {
        match self {
            Statement::CreateSchema { schema_name } => StmtView::CreateSchema {
                schema_name: schema_name@,
            },
            Statement::CreateTable { table_name, columns } => StmtView::CreateTable {
                table_name: table_name@,
                columns: strings_view(columns@),
            },
            Statement::CreateIndex { index_name, table_name, columns } => StmtView::CreateIndex {
                index_name: index_name@,
                table_name: table_name@,
                columns: strings_view(columns@),
            },
            Statement::Insert { table_name, values } => StmtView::Insert {
                table_name: table_name@,
                values: strings_view(values@),
            },
            Statement::Select { table_name, where_clause, order_by, limit_offset } => {
                StmtView::Select {
                    table_name: table_name@,
                    where_clause: pair_view(*where_clause),
                    order_by: match order_by {
                        Some((c, d)) => Some((c@, *d)),
                        None => None,
                    },
                    limit_offset: *limit_offset,
                }
            },
            Statement::SelectRange { table_name, column, op, val } => StmtView::SelectRange {
                table_name: table_name@,
                column: column@,
                op: op@,
                val: val@,
            },
            Statement::SelectAggregate { func, column, table_name, where_clause } => {
                StmtView::SelectAggregate {
                    func: func@,
                    column: column@,
                    table_name: table_name@,
                    where_clause: pair_view(*where_clause),
                }
            },
            Statement::SelectGroupAggregate {
                group_col,
                func,
                agg_col,
                table_name,
                where_clause,
                having_clause,
            } => StmtView::SelectGroupAggregate {
                group_col: group_col@,
                func: func@,
                agg_col: agg_col@,
                table_name: table_name@,
                where_clause: pair_view(*where_clause),
                having_clause: pair_view(*having_clause),
            },
            Statement::SelectJoin { left_table, right_table, left_col, right_col, is_left_join } => {
                StmtView::SelectJoin {
                    left_table: left_table@,
                    right_table: right_table@,
                    left_col: left_col@,
                    right_col: right_col@,
                    is_left_join: *is_left_join,
                }
            },
            Statement::Update { table_name, column, value, pk_val } => StmtView::Update {
                table_name: table_name@,
                column: column@,
                value: value@,
                pk_val: pk_val@,
            },
            Statement::Delete { table_name, pk_val } => StmtView::Delete {
                table_name: table_name@,
                pk_val: pk_val@,
            },
            Statement::DropTable { table_name } => StmtView::DropTable { table_name: table_name@ },
            Statement::ShowTables => StmtView::ShowTables,
            Statement::ShowSchemas => StmtView::ShowSchemas,
            Statement::Begin => StmtView::Begin,
            Statement::Commit => StmtView::Commit,
            Statement::Rollback => StmtView::Rollback,
        }
    }
}

impl ParseError {
    pub open spec fn view(&self) -> ErrView {
        match self {
            ParseError::UnrecognizedStatement => ErrView::UnrecognizedStatement,
            ParseError::ReservedPrefix { identifier } => ErrView::ReservedPrefix {
                identifier: identifier@,
            },
            ParseError::EmptyIdentifier => ErrView::EmptyIdentifier,
            ParseError::InvalidCreateTable => ErrView::InvalidCreateTable,
            ParseError::MissingColumnDefinitions => ErrView::MissingColumnDefinitions,
            ParseError::MissingOnInCreateIndex => ErrView::MissingOnInCreateIndex,
            ParseError::MissingOpenParenInCreateIndex => ErrView::MissingOpenParenInCreateIndex,
            ParseError::MissingCloseParenInCreateIndex => ErrView::MissingCloseParenInCreateIndex,
            ParseError::MissingValues => ErrView::MissingValues,
            ParseError::ValuesNotParenthesized => ErrView::ValuesNotParenthesized,
            ParseError::UnterminatedString => ErrView::UnterminatedString,
            ParseError::MissingFrom => ErrView::MissingFrom,
            ParseError::MissingOnInJoin => ErrView::MissingOnInJoin,
            ParseError::InvalidJoinCondition => ErrView::InvalidJoinCondition,
            ParseError::GroupByTargets => ErrView::GroupByTargets,
            ParseError::InvalidGroupByAggregate => ErrView::InvalidGroupByAggregate,
            ParseError::InvalidHaving { condition } => ErrView::InvalidHaving {
                condition: condition@,
            },
            ParseError::ExpectedEquals { expression } => ErrView::ExpectedEquals {
                expression: expression@,
            },
            ParseError::MissingSet => ErrView::MissingSet,
            ParseError::MissingWhereInUpdate => ErrView::MissingWhereInUpdate,
            ParseError::MissingWhereInDelete => ErrView::MissingWhereInDelete,
        }
    }
}

// ---- Specification of the grammar ----
/// The outcome of a parsing step: a value, an error, or `None` where the step would index
/// out of order (a closing bracket before its opening one, a keyword out of place).
pub type Outcome<T> = Option<Result<T, ErrView>>;

/// Identifier check: no reserved `__` prefix, not empty (after trimming).
pub open spec fn check_identifier(name: Text) -> Option<ErrView> {
    let clean = trim(name);
    if starts_with(clean, "__"@) {
        Some(ErrView::ReservedPrefix { identifier: clean })
    } else if clean.len() == 0 {
        Some(ErrView::EmptyIdentifier)
    } else {
        None
    }
}

/// The first identifier error among `names`, each checked as `name_of` picks it.
pub open spec fn first_bad_identifier(names: Seq<Text>, first_token: bool) -> Option<ErrView>
    decreases names.len(),
{
    if names.len() == 0 {
        None
    } else {
        let n = if first_token {
            let t = tokens(names[0]);
            if t.len() > 0 {
                t[0]
            } else {
                Seq::empty()
            }
        } else {
            names[0]
        };
        match check_identifier(n) {
            Some(e) => Some(e),
            None => first_bad_identifier(names.drop_first(), first_token),
        }
    }
}

pub open spec fn trim_all(v: Seq<Text>) -> Seq<Text> {
    v.map_values(|t: Text| trim(t))
}

/// `col = value`: the trimmed column and the trimmed value without surrounding quotes.
pub open spec fn spec_assignment(expr: Text) -> Result<Pair, ErrView> {
    match find(expr, "="@) {
        None => Err(ErrView::ExpectedEquals { expression: expr }),
        Some(i) => Ok((trim(expr.take(i)), trim_char(trim(expr.skip(i + 1)), '\''))),
    }
}

pub open spec fn spec_extract_column_name(full: Text) -> Text {
    match find(full, "."@) {
        Some(d) => trim(full.skip(d + 1)),
        None => trim(full),
    }
}

pub open spec fn spec_join_condition(cond: Text) -> Result<Pair, ErrView> {
    let parts = split_char(cond, '=');
    if parts.len() != 2 {
        Err(ErrView::InvalidJoinCondition)
    } else {
        Ok((spec_extract_column_name(trim(parts[0])), spec_extract_column_name(trim(parts[1]))))
    }
}

pub open spec fn having_ops() -> Seq<Text> {
    seq![">="@, "<="@, ">"@, "<"@, "="@]
}

pub open spec fn range_ops() -> Seq<Text> {
    seq![">="@, "<="@, ">"@, "<"@]
}

/// The first operator of `ops` (from index `k`) that occurs in `cond`, with its position.
pub open spec fn first_op(cond: Text, ops: Seq<Text>, k: int) -> Option<(Text, int)>
    decreases ops.len() - k,
{
    if k < 0 || k >= ops.len() {
        None
    } else {
        match find(cond, ops[k]) {
            Some(i) => Some((ops[k], i)),
            None => first_op(cond, ops, k + 1),
        }
    }
}

pub open spec fn spec_having_condition(cond: Text) -> Result<Pair, ErrView> {
    match first_op(cond, having_ops(), 0) {
        Some((op, i)) => Ok((op, trim(cond.skip(i + op.len())))),
        None => Err(ErrView::InvalidHaving { condition: cond }),
    }
}

/// Splitting on commas outside single-quoted strings; `''` inside quotes is a quote. Pieces
/// are trimmed and quotes dropped.
pub open spec fn svq(
    s: Text,
    i: int,
    values: Seq<Text>,
    cur: Text,
    in_quotes: bool,
) -> Result<Seq<Text>, ErrView>
    decreases s.len() - i,
{
    if i < 0 || i >= s.len() {
        if in_quotes {
            Err(ErrView::UnterminatedString)
        } else {
            Ok(values.push(trim(cur)))
        }
    } else {
        let ch = s[i];
        if in_quotes {
            if ch == '\'' {
                if i + 1 < s.len() && s[i + 1] == '\'' {
                    svq(s, i + 2, values, cur.push('\''), true)
                } else {
                    svq(s, i + 1, values, cur, false)
                }
            } else {
                svq(s, i + 1, values, cur.push(ch), true)
            }
        } else if ch == '\'' {
            svq(s, i + 1, values, cur, true)
        } else if ch == ',' {
            svq(s, i + 1, values.push(trim(cur)), Seq::empty(), false)
        } else {
            svq(s, i + 1, values, cur.push(ch), false)
        }
    }
}

pub open spec fn spec_split_values(s: Text) -> Result<Seq<Text>, ErrView> {
    svq(s, 0, Seq::empty(), Seq::empty(), false)
}

/// Trailing `ORDER BY col [ASC|DESC]` and `LIMIT n [OFFSET m]` clauses: the part before
/// them, the ordering and the limit with its offset.
pub open spec fn spec_order_limit(rest: Text) -> Option<(Text, Option<(Text, bool)>, Option<(usize, usize)>)> {
    let up = upper(rest);
    let li = find(up, "LIMIT"@);
    let oi = find(up, "ORDER BY"@);
    let main = match (oi, li) {
        (Some(o), Some(l)) => trim(rest.take(if o < l { o } else { l })),
        (Some(o), None) => trim(rest.take(o)),
        (None, Some(l)) => trim(rest.take(l)),
        (None, None) => rest,
    };
    let order_end: int = match (oi, li) {
        (Some(o), Some(l)) => if l > o { l } else { rest.len() as int },
        _ => rest.len() as int,
    };
    if oi matches Some(o) && order_end < o + 8 {
        None
    } else {
        let order_by = match oi {
            Some(o) => {
                let parts = tokens(trim(rest.subrange(o + 8, order_end)));
                if parts.len() > 0 {
                    Some((parts[0], parts.len() > 1 && upper(parts[1]) == "DESC"@))
                } else {
                    None
                }
            },
            None => None,
        };
        let limit_offset = match li {
            Some(l) => {
                let ls = trim(rest.skip(l + 5));
                let (lv, ov) = match find(upper(ls), "OFFSET"@) {
                    Some(off) => (trim(ls.take(off)), Some(trim(ls.skip(off + 6)))),
                    None => (ls, None),
                };
                match parse_usize(lv) {
                    Some(n) => Some(
                        (
                            n,
                            match ov {
                                Some(o) => match parse_usize(o) {
                                    Some(m) => m,
                                    None => 0,
                                },
                                None => 0,
                            },
                        ),
                    ),
                    None => None,
                }
            },
            None => None,
        };
        Some((main, order_by, limit_offset))
    }
}

pub open spec fn spec_create_schema(sql: Text) -> Outcome<StmtView> {
    if sql.len() < 13 {
        None
    } else {
        let name = trim(sql.skip(13));
        match check_identifier(name) {
            Some(e) => Some(Err(e)),
            None => Some(Ok(StmtView::CreateSchema { schema_name: name })),
        }
    }
}

/// The third piece of `splitn(3, ' ')`, when there are three pieces.
pub open spec fn third_piece(sql: Text) -> Option<Text> {
    match find(sql, " "@) {
        None => None,
        Some(i) => {
            let r = sql.skip(i + 1);
            match find(r, " "@) {
                None => None,
                Some(j) => Some(r.skip(j + 1)),
            }
        },
    }
}

pub open spec fn spec_create_table(sql: Text) -> Outcome<StmtView> {
    match third_piece(sql) {
        None => Some(Err(ErrView::InvalidCreateTable)),
        Some(tc) => match find(tc, "("@) {
            None => Some(Err(ErrView::MissingColumnDefinitions)),
            Some(p) => {
                let table_name = trim(tc.take(p));
                let end = match rfind_char(tc, ')') {
                    Some(e) => e,
                    None => tc.len() as int,
                };
                if end < p + 1 {
                    None
                } else {
                    let columns = trim_all(split_char(tc.subrange(p + 1, end), ','));
                    match check_identifier(table_name) {
                        Some(e) => Some(Err(e)),
                        None => match first_bad_identifier(columns, true) {
                            Some(e) => Some(Err(e)),
                            None => Some(Ok(StmtView::CreateTable { table_name, columns })),
                        },
                    }
                }
            },
        },
    }
}

pub open spec fn spec_create_index(sql: Text) -> Outcome<StmtView> {
    match find(upper(sql), " ON "@) {
        None => Some(Err(ErrView::MissingOnInCreateIndex)),
        Some(on) => if on < 12 {
            None
        } else {
            let index_name = trim(sql.subrange(12, on));
            let rest = trim(sql.skip(on + 4));
            match find(rest, "("@) {
                None => Some(Err(ErrView::MissingOpenParenInCreateIndex)),
                Some(p) => match rfind_char(rest, ')') {
                    None => Some(Err(ErrView::MissingCloseParenInCreateIndex)),
                    Some(end) => if end < p + 1 {
                        None
                    } else {
                        let table_name = trim(rest.take(p));
                        let columns = trim_all(split_char(trim(rest.subrange(p + 1, end)), ','));
                        match check_identifier(table_name) {
                            Some(e) => Some(Err(e)),
                            None => match first_bad_identifier(columns, false) {
                                Some(e) => Some(Err(e)),
                                None => Some(
                                    Ok(StmtView::CreateIndex { index_name, table_name, columns }),
                                ),
                            },
                        }
                    },
                },
            }
        },
    }
}

pub open spec fn spec_insert(sql: Text) -> Outcome<StmtView> {
    match find(upper(sql), "VALUES"@) {
        None => Some(Err(ErrView::MissingValues)),
        Some(vi) => if vi < 11 {
            None
        } else {
            let table_name = trim(sql.subrange(11, vi));
            let vp = trim(sql.skip(vi + 6));
            if !(vp.len() > 0 && vp[0] == '(') || !(vp.len() > 0 && vp.last() == ')') {
                Some(Err(ErrView::ValuesNotParenthesized))
            } else {
                match spec_split_values(vp.subrange(1, vp.len() - 1)) {
                    Err(e) => Some(Err(e)),
                    Ok(values) => Some(Ok(StmtView::Insert { table_name, values })),
                }
            }
        },
    }
}

/// A table name, optionally followed by `WHERE col = value`.
pub open spec fn spec_table_and_where(part: Text) -> Result<(Text, Option<Pair>), ErrView> {
    match find(upper(part), "WHERE"@) {
        Some(w) => match spec_assignment(trim(part.skip(w + 5))) {
            Ok(wc) => Ok((trim(part.take(w)), Some(wc))),
            Err(e) => Err(e),
        },
        None => Ok((part, None)),
    }
}

pub open spec fn spec_select_join(rest: Text) -> Outcome<StmtView> {
    let ur = upper(rest);
    let is_left = find(ur, "LEFT JOIN"@) is Some;
    let kw = if is_left { "LEFT JOIN"@ } else { "JOIN"@ };
    match find(ur, kw) {
        None => None,
        Some(ji) => {
            let left_table = trim(rest.take(ji));
            match find(ur, " ON "@) {
                None => Some(Err(ErrView::MissingOnInJoin)),
                Some(oi) => if oi < ji + kw.len() {
                    None
                } else {
                    let right_table = trim(rest.subrange(ji + kw.len(), oi));
                    match spec_join_condition(trim(rest.skip(oi + 4))) {
                        Err(e) => Some(Err(e)),
                        Ok((left_col, right_col)) => Some(
                            Ok(
                                StmtView::SelectJoin {
                                    left_table,
                                    right_table,
                                    left_col,
                                    right_col,
                                    is_left_join: is_left,
                                },
                            ),
                        ),
                    }
                },
            }
        },
    }
}

pub open spec fn spec_select_group(target: Text, rest: Text, gb: int) -> Outcome<StmtView> {
    let before = trim(rest.take(gb));
    let after = trim(rest.skip(gb + 8));
    let having: Result<(Text, Option<Pair>), ErrView> = match find(upper(after), "HAVING"@) {
        Some(h) => match spec_having_condition(trim(after.skip(h + 6))) {
            Ok(hc) => Ok((trim(after.take(h)), Some(hc))),
            Err(e) => Err(e),
        },
        None => Ok((after, None)),
    };
    match having {
        Err(e) => Some(Err(e)),
        Ok((group_col, having_clause)) => {
            let parts = trim_all(split_char(target, ','));
            if parts.len() != 2 {
                Some(Err(ErrView::GroupByTargets))
            } else {
                let ap = upper(parts[1]);
                match find(ap, "("@) {
                    None => Some(Err(ErrView::InvalidGroupByAggregate)),
                    Some(fe) => {
                        let ce = match rfind_char(ap, ')') {
                            Some(c) => c,
                            None => ap.len() as int,
                        };
                        if ce < fe + 1 {
                            None
                        } else {
                            let func = ap.take(fe);
                            let agg_col = trim(parts[1].subrange(fe + 1, ce));
                            match spec_table_and_where(before) {
                                Err(e) => Some(Err(e)),
                                Ok((table_name, where_clause)) => Some(
                                    Ok(
                                        StmtView::SelectGroupAggregate {
                                            group_col,
                                            func,
                                            agg_col,
                                            table_name,
                                            where_clause,
                                            having_clause,
                                        },
                                    ),
                                ),
                            }
                        }
                    },
                }
            }
        },
    }
}

pub open spec fn is_aggregate_target(ut: Text) -> bool {
    starts_with(ut, "COUNT("@) || starts_with(ut, "SUM("@) || starts_with(ut, "AVG("@)
}

pub open spec fn spec_select_aggregate(target: Text, rest: Text) -> Outcome<StmtView> {
    match find(target, "("@) {
        None => None,
        Some(fe) => {
            let ce = match rfind_char(target, ')') {
                Some(c) => c,
                None => target.len() as int,
            };
            if ce < fe + 1 {
                None
            } else {
                let func = upper(target.take(fe));
                let column = trim(target.subrange(fe + 1, ce));
                match spec_table_and_where(rest) {
                    Err(e) => Some(Err(e)),
                    Ok((table_name, where_clause)) => Some(
                        Ok(StmtView::SelectAggregate { func, column, table_name, where_clause }),
                    ),
                }
            }
        },
    }
}

pub open spec fn spec_select_plain(rest: Text) -> Outcome<StmtView> {
    match spec_order_limit(rest) {
        None => None,
        Some((tw, order_by, limit_offset)) => match find(upper(tw), "WHERE"@) {
            Some(w) => {
                let table_name = trim(tw.take(w));
                let cond = trim(tw.skip(w + 5));
                match first_op(cond, range_ops(), 0) {
                    Some((op, i)) => Some(
                        Ok(
                            StmtView::SelectRange {
                                table_name,
                                column: trim(cond.take(i)),
                                op,
                                val: trim_char(trim(cond.skip(i + op.len())), '\''),
                            },
                        ),
                    ),
                    None => match spec_assignment(cond) {
                        Err(e) => Some(Err(e)),
                        Ok(wc) => Some(
                            Ok(
                                StmtView::Select {
                                    table_name,
                                    where_clause: Some(wc),
                                    order_by,
                                    limit_offset,
                                },
                            ),
                        ),
                    },
                }
            },
            None => Some(
                Ok(StmtView::Select { table_name: tw, where_clause: None, order_by, limit_offset }),
            ),
        },
    }
}

pub open spec fn spec_select(sql: Text) -> Outcome<StmtView> {
    match find(upper(sql), "FROM"@) {
        None => Some(Err(ErrView::MissingFrom)),
        Some(fi) => if fi < 6 {
            None
        } else {
            let target = trim(sql.subrange(6, fi));
            let rest = trim(sql.skip(fi + 4));
            let ur = upper(rest);
            if find(ur, " JOIN "@) is Some {
                spec_select_join(rest)
            } else {
                match find(ur, "GROUP BY"@) {
                    Some(gb) => spec_select_group(target, rest, gb),
                    None => if is_aggregate_target(upper(target)) {
                        spec_select_aggregate(target, rest)
                    } else {
                        spec_select_plain(rest)
                    },
                }
            }
        },
    }
}

pub open spec fn spec_update(sql: Text) -> Outcome<StmtView> {
    let up = upper(sql);
    match find(up, "SET"@) {
        None => Some(Err(ErrView::MissingSet)),
        Some(si) => match find(up, "WHERE"@) {
            None => Some(Err(ErrView::MissingWhereInUpdate)),
            Some(wi) => if si < 6 || wi < si + 3 {
                None
            } else {
                let table_name = trim(sql.subrange(6, si));
                match spec_assignment(trim(sql.subrange(si + 3, wi))) {
                    Err(e) => Some(Err(e)),
                    Ok((column, value)) => match spec_assignment(trim(sql.skip(wi + 5))) {
                        Err(e) => Some(Err(e)),
                        Ok((_, pk_val)) => Some(
                            Ok(StmtView::Update { table_name, column, value, pk_val }),
                        ),
                    },
                }
            },
        },
    }
}

pub open spec fn spec_delete(sql: Text) -> Outcome<StmtView> {
    match find(upper(sql), "WHERE"@) {
        None => Some(Err(ErrView::MissingWhereInDelete)),
        Some(wi) => if wi < 11 {
            None
        } else {
            let table_name = trim(sql.subrange(11, wi));
            match spec_assignment(trim(sql.skip(wi + 5))) {
                Err(e) => Some(Err(e)),
                Ok((_, pk_val)) => Some(Ok(StmtView::Delete { table_name, pk_val })),
            }
        },
    }
}

pub open spec fn spec_drop_table(sql: Text) -> Outcome<StmtView> {
    if sql.len() < 10 {
        None
    } else {
        let name = trim(sql.skip(10));
        match check_identifier(name) {
            Some(e) => Some(Err(e)),
            None => Some(Ok(StmtView::DropTable { table_name: name })),
        }
    }
}

/// The text that parsing `raw` works on: trimmed, with trailing `;` removed.
pub open spec fn statement_text(raw: Text) -> Text {
    trim_end_char(trim(raw), ';')
}

/// What parsing `raw` gives; `None` for the inputs the parser cannot index into. The kind
/// of statement is chosen by the leading keywords of its Unicode upper-cased text.
pub open spec fn spec_parse(raw: Text) -> Outcome<StmtView> {
    spec_dispatch(statement_text(raw), unicode_upper(statement_text(raw)))
}

/// What parsing statement text `sql` gives, `up` being its upper-cased text: the leading
/// keywords of `up` choose the statement kind, and the statement is read from `sql`.
pub open spec fn spec_dispatch(sql: Text, up: Text) -> Outcome<StmtView> {
    if starts_with(up, "CREATE SCHEMA"@) {
        spec_create_schema(sql)
    } else if starts_with(up, "CREATE INDEX"@) {
        spec_create_index(sql)
    } else if starts_with(up, "CREATE TABLE"@) {
        spec_create_table(sql)
    } else if starts_with(up, "INSERT INTO"@) {
        spec_insert(sql)
    } else if starts_with(up, "SELECT"@) {
        spec_select(sql)
    } else if starts_with(up, "UPDATE"@) {
        spec_update(sql)
    } else if starts_with(up, "DELETE FROM"@) {
        spec_delete(sql)
    } else if starts_with(up, "DROP TABLE"@) {
        spec_drop_table(sql)
    } else if up == "SHOW TABLES"@ {
        Some(Ok(StmtView::ShowTables))
    } else if up == "SHOW SCHEMAS"@ {
        Some(Ok(StmtView::ShowSchemas))
    } else if up == "BEGIN"@ {
        Some(Ok(StmtView::Begin))
    } else if up == "COMMIT"@ {
        Some(Ok(StmtView::Commit))
    } else if up == "ROLLBACK"@ {
        Some(Ok(StmtView::Rollback))
    } else {
        Some(Err(ErrView::UnrecognizedStatement))
    }
}

// ---- Implementation ----
pub open spec fn chars_view(v: Seq<Vec<char>>) -> Seq<Text> {
    v.map_values(|c: Vec<char>| c@)
}

pub open spec fn opt_err_view(o: Option<ParseError>) -> Option<ErrView> {
    match o {
        Some(e) => Some(e.view()),
        None => None,
    }
}

pub open spec fn pair_result_view(r: Result<(Vec<char>, Vec<char>), ParseError>) -> Result<Pair, ErrView> {
    match r {
        Ok((a, b)) => Ok((a@, b@)),
        Err(e) => Err(e.view()),
    }
}

/// Checks an identifier: no reserved `__` prefix and not empty.
fn validate_identifier(name: &[char]) -> (r: Option<ParseError>)
    ensures
        opt_err_view(r) == check_identifier(name@),
{
    let clean = trim_chars(name);
    let prefix = chars_of("__");
    if occurs_at_exec(clean.as_slice(), prefix.as_slice(), 0) {
        return Some(ParseError::ReservedPrefix { identifier: string_of(clean.as_slice()) });
    }
    if clean.len() == 0 {
        return Some(ParseError::EmptyIdentifier);
    }
    None
}

/// The first identifier error among `names`; with `first_token`, each name is the first
/// whitespace-separated token of its entry.
fn first_bad_identifier_exec(names: &Vec<Vec<char>>, first_token: bool) -> (r: Option<ParseError>)
    ensures
        opt_err_view(r) == first_bad_identifier(chars_view(names@), first_token),
{
    let ghost all = chars_view(names@);
    let mut i: usize = 0;
    assert(all.skip(0) =~= all);
    while i < names.len()
        invariant
            all == chars_view(names@),
            i <= names@.len(),
            first_bad_identifier(all.skip(i as int), first_token) == first_bad_identifier(
                all,
                first_token,
            ),
        decreases names@.len() - i,
    {
        assert(all.skip(i as int).drop_first() =~= all.skip(i + 1));
        assert(all.skip(i as int)[0] == names@[i as int]@);
        let err = if first_token {
            let toks = tokens_exec(names[i].as_slice());
            if toks.len() > 0 {
                validate_identifier(toks[0].as_slice())
            } else {
                let empty: Vec<char> = Vec::new();
                assert(empty@ =~= Seq::<char>::empty());
                validate_identifier(empty.as_slice())
            }
        } else {
            validate_identifier(names[i].as_slice())
        };
        if err.is_some() {
            return err;
        }
        i += 1;
    }
    assert(all.skip(i as int).len() == 0);
    None
}

/// Trims every piece.
fn trim_each(v: Vec<Vec<char>>) -> (r: Vec<Vec<char>>)
    ensures
        chars_view(r@) == trim_all(chars_view(v@)),
{
    let mut r: Vec<Vec<char>> = Vec::new();
    let mut i: usize = 0;
    while i < v.len()
        invariant
            i <= v@.len(),
            chars_view(r@) == trim_all(chars_view(v@.take(i as int))),
        decreases v@.len() - i,
    {
        let ghost before = chars_view(r@);
        let t = trim_chars(v[i].as_slice());
        r.push(t);
        assert(chars_view(v@.take(i + 1)) =~= chars_view(v@.take(i as int)).push(v@[i as int]@));
        assert(trim_all(chars_view(v@.take(i + 1))) =~= trim_all(chars_view(v@.take(i as int))).push(trim(v@[i as int]@)));
        assert(chars_view(r@) =~= before.push(t@));
        i += 1;
    }
    assert(v@.take(i as int) =~= v@);
    r
}

/// `col = value`: the trimmed column and the trimmed value without surrounding quotes.
fn parse_assignment(expr: &[char]) -> (r: Result<(Vec<char>, Vec<char>), ParseError>)
    ensures
        pair_result_view(r) == spec_assignment(expr@),
{
    let eq = chars_of("=");
    let _n = expr.len();
    match find_exec(expr, eq.as_slice(), 0) {
        None => Err(ParseError::ExpectedEquals { expression: string_of(expr) }),
        Some(i) => {
            proof {
                lemma_find_from_bounds(expr@, eq@, 0);
                reveal_strlit("=");
            }
            let col = trim_chars(subseq(expr, 0, i).as_slice());
            let v = trim_chars(subseq(expr, i + 1, expr.len()).as_slice());
            let val = trim_char_exec(v.as_slice(), '\'');
            assert(expr@.subrange(0, i as int) =~= expr@.take(i as int));
            assert(expr@.subrange(i + 1, expr@.len() as int) =~= expr@.skip(i + 1));
            Ok((col, val))
        },
    }
}

/// `WHERE col = value`.
fn parse_where_equality(cond: &[char]) -> (r: Result<(Vec<char>, Vec<char>), ParseError>)
    ensures
        pair_result_view(r) == spec_assignment(cond@),
{
    parse_assignment(cond)
}

/// The part after the first `.`, or the whole name, trimmed.
fn extract_column_name(full: &[char]) -> (r: Vec<char>)
    ensures
        r@ == spec_extract_column_name(full@),
{
    let dot = chars_of(".");
    let _n = full.len();
    match find_exec(full, dot.as_slice(), 0) {
        Some(d) => {
            proof {
                lemma_find_from_bounds(full@, dot@, 0);
                reveal_strlit(".");
            }
            let after = subseq(full, d + 1, full.len());
            assert(after@ =~= full@.skip(d + 1));
            trim_chars(after.as_slice())
        },
        None => trim_chars(full),
    }
}

/// `left.col = right.col`: the two column names.
fn parse_join_condition(cond: &[char]) -> (r: Result<(Vec<char>, Vec<char>), ParseError>)
    ensures
        pair_result_view(r) == spec_join_condition(cond@),
{
    let parts = split_char_exec(cond, '=');
    if parts.len() != 2 {
        return Err(ParseError::InvalidJoinCondition);
    }
    assert(parts@[0]@ == split_char(cond@, '=')[0]);
    assert(parts@[1]@ == split_char(cond@, '=')[1]);
    let l = trim_chars(parts[0].as_slice());
    let r = trim_chars(parts[1].as_slice());
    Ok((extract_column_name(l.as_slice()), extract_column_name(r.as_slice())))
}

/// The first of `ops` that occurs in `cond`, with its index in `ops` and position in `cond`.
fn first_op_exec(cond: &[char], ops: &Vec<Vec<char>>) -> (r: Option<(usize, usize)>)
    ensures
        match r {
            Some((k, i)) => k < ops@.len() && first_op(cond@, chars_view(ops@), 0) == Some(
                (ops@[k as int]@, i as int),
            ),
            None => first_op(cond@, chars_view(ops@), 0) is None,
        },
{
    let ghost all = chars_view(ops@);
    let mut k: usize = 0;
    while k < ops.len()
        invariant
            all == chars_view(ops@),
            k <= ops@.len(),
            first_op(cond@, all, k as int) == first_op(cond@, all, 0),
        decreases ops@.len() - k,
    {
        assert(all[k as int] == ops@[k as int]@);
        match find_exec(cond, ops[k].as_slice(), 0) {
            Some(i) => {
                return Some((k, i));
            },
            None => {},
        }
        k += 1;
    }
    None
}

pub proof fn lemma_first_op(cond: Text, ops: Seq<Text>, k: int)
    ensures
        first_op(cond, ops, k) matches Some((op, i)) ==> find(cond, op) == Some(i),
    decreases ops.len() - k,
{
    if !(k < 0 || k >= ops.len()) && find(cond, ops[k]) is None {
        lemma_first_op(cond, ops, k + 1);
    }
}

fn having_ops_exec() -> (r: Vec<Vec<char>>)
    ensures
        chars_view(r@) == having_ops(),
{
    let mut r: Vec<Vec<char>> = Vec::new();
    r.push(chars_of(">="));
    r.push(chars_of("<="));
    r.push(chars_of(">"));
    r.push(chars_of("<"));
    r.push(chars_of("="));
    assert(chars_view(r@) =~= having_ops());
    r
}

fn range_ops_exec() -> (r: Vec<Vec<char>>)
    ensures
        chars_view(r@) == range_ops(),
{
    let mut r: Vec<Vec<char>> = Vec::new();
    r.push(chars_of(">="));
    r.push(chars_of("<="));
    r.push(chars_of(">"));
    r.push(chars_of("<"));
    assert(chars_view(r@) =~= range_ops());
    r
}

/// `HAVING` condition: the comparison operator and the trimmed value after it.
fn parse_having_condition(cond: &[char]) -> (r: Result<(Vec<char>, Vec<char>), ParseError>)
    ensures
        pair_result_view(r) == spec_having_condition(cond@),
{
    let ops = having_ops_exec();
    let _n = cond.len();
    match first_op_exec(cond, &ops) {
        Some((k, i)) => {
            let op = &ops[k];
            proof {
                lemma_first_op(cond@, chars_view(ops@), 0);
                lemma_find_from_bounds(cond@, op@, 0);
            }
            let rest = subseq(cond, i + op.len(), cond.len());
            assert(rest@ =~= cond@.skip(i + op@.len()));
            let val = trim_chars(rest.as_slice());
            let op_copy = subseq(op.as_slice(), 0, op.len());
            assert(op_copy@ =~= op@);
            Ok((op_copy, val))
        },
        None => Err(ParseError::InvalidHaving { condition: string_of(cond) }),
    }
}

/// Splits a value list on commas that stand outside single-quoted strings.
fn split_values_respecting_quotes(input: &[char]) -> (r: Result<Vec<Vec<char>>, ParseError>)
    ensures
        match r {
            Ok(v) => spec_split_values(input@) == Ok::<Seq<Text>, ErrView>(chars_view(v@)),
            Err(e) => spec_split_values(input@) == Err::<Seq<Text>, ErrView>(e.view()),
        },
{
    let mut values: Vec<Vec<char>> = Vec::new();
    let mut current: Vec<char> = Vec::new();
    let mut in_quotes = false;
    let mut i: usize = 0;
    assert(chars_view(values@) =~= Seq::<Text>::empty());
    assert(current@ =~= Seq::<char>::empty());
    while i < input.len()
        invariant
            i <= input@.len(),
            svq(input@, i as int, chars_view(values@), current@, in_quotes) == spec_split_values(
                input@,
            ),
        decreases input@.len() - i,
    {
        let ghost vs = chars_view(values@);
        let ch = input[i];
        if in_quotes {
            if ch == '\'' {
                if i + 1 < input.len() && input[i + 1] == '\'' {
                    current.push('\'');
                    i += 2;
                } else {
                    in_quotes = false;
                    i += 1;
                }
            } else {
                current.push(ch);
                i += 1;
            }
        } else if ch == '\'' {
            in_quotes = true;
            i += 1;
        } else if ch == ',' {
            let piece = trim_chars(current.as_slice());
            values.push(piece);
            current = Vec::new();
            assert(chars_view(values@) =~= vs.push(piece@));
            assert(current@ =~= Seq::<char>::empty());
            i += 1;
        } else {
            current.push(ch);
            i += 1;
        }
    }
    if in_quotes {
        return Err(ParseError::UnterminatedString);
    }
    let ghost vs = chars_view(values@);
    let piece = trim_chars(current.as_slice());
    values.push(piece);
    assert(chars_view(values@) =~= vs.push(piece@));
    Ok(values)
}

pub open spec fn outcome_view(o: Option<Result<Statement, ParseError>>) -> Outcome<StmtView> {
    match o {
        None => None,
        Some(Ok(st)) => Some(Ok(st.view())),
        Some(Err(e)) => Some(Err(e.view())),
    }
}

/// Strings holding each piece.
fn strings_of(v: &Vec<Vec<char>>) -> (r: Vec<String>)
    ensures
        strings_view(r@) == chars_view(v@),
{
    let mut r: Vec<String> = Vec::new();
    let mut i: usize = 0;
    while i < v.len()
        invariant
            i <= v@.len(),
            strings_view(r@) == chars_view(v@.take(i as int)),
        decreases v@.len() - i,
    {
        let ghost before = strings_view(r@);
        let s = string_of(v[i].as_slice());
        r.push(s);
        assert(chars_view(v@.take(i + 1)) =~= chars_view(v@.take(i as int)).push(v@[i as int]@));
        assert(strings_view(r@) =~= before.push(s@));
        i += 1;
    }
    assert(v@.take(i as int) =~= v@);
    r
}

fn pair_strings(p: (Vec<char>, Vec<char>)) -> (r: (String, String))
    ensures
        r.0@ == p.0@,
        r.1@ == p.1@,
{
    (string_of(p.0.as_slice()), string_of(p.1.as_slice()))
}

/// Finds `kw` in `s` (from the start).
fn find_kw(s: &[char], kw: &str) -> (r: Option<usize>)
    ensures
        match r {
            Some(k) => find(s@, kw@) == Some(k as int) && k + kw@.len() <= s@.len(),
            None => find(s@, kw@) is None,
        },
{
    let k = chars_of(kw);
    let r = find_exec(s, k.as_slice(), 0);
    proof {
        lemma_find_from_bounds(s@, kw@, 0);
    }
    r
}

/// Whether `s` starts with `kw`.
fn starts_with_kw(s: &[char], kw: &str) -> (r: bool)
    ensures
        r == starts_with(s@, kw@),
{
    let k = chars_of(kw);
    occurs_at_exec(s, k.as_slice(), 0)
}

/// Whether `s` equals `kw`.
fn equals_kw(s: &[char], kw: &str) -> (r: bool)
    ensures
        r == (s@ == kw@),
{
    let k = chars_of(kw);
    chars_eq(s, k.as_slice())
}

/// Parses trailing `ORDER BY col [ASC|DESC]` and `LIMIT n [OFFSET m]` clauses.
fn parse_order_by_and_limit(rest: &[char]) -> (r: Option<
    (Vec<char>, Option<(Vec<char>, bool)>, Option<(usize, usize)>),
>)
    ensures
        match r {
            None => spec_order_limit(rest@) is None,
            Some((main, ob, lo)) => spec_order_limit(rest@) == Some(
                (
                    main@,
                    match ob {
                        Some((c, d)) => Some((c@, d)),
                        None => None,
                    },
                    lo,
                ),
            ),
        },
{
    let up = to_upper(rest);
    let n = rest.len();
    let limit_idx = find_kw(up.as_slice(), "LIMIT");
    let order_idx = find_kw(up.as_slice(), "ORDER BY");
    proof {
        reveal_strlit("LIMIT");
        reveal_strlit("ORDER BY");
        reveal_strlit("OFFSET");
    }
    let main: Vec<char> = match (order_idx, limit_idx) {
        (Some(o), Some(l)) => trim_chars(subseq(rest, 0, if o < l { o } else { l }).as_slice()),
        (Some(o), None) => trim_chars(subseq(rest, 0, o).as_slice()),
        (None, Some(l)) => trim_chars(subseq(rest, 0, l).as_slice()),
        (None, None) => subseq(rest, 0, n),
    };
    assert(rest@.subrange(0, n as int) =~= rest@);
    proof {
        if let Some(o) = order_idx {
            assert(rest@.subrange(0, o as int) =~= rest@.take(o as int));
        }
        if let Some(l) = limit_idx {
            assert(rest@.subrange(0, l as int) =~= rest@.take(l as int));
        }
    }
    let order_end: usize = match (order_idx, limit_idx) {
        (Some(o), Some(l)) => if l > o {
            l
        } else {
            n
        },
        _ => n,
    };
    let mut order_by: Option<(Vec<char>, bool)> = None;
    if let Some(o) = order_idx {
        if order_end < o + 8 {
            return None;
        }
        let seg = trim_chars(subseq(rest, o + 8, order_end).as_slice());
        let parts = tokens_exec(seg.as_slice());
        if parts.len() > 0 {
            let ghost ps = chars_view(parts@);
            assert(ps[0] == parts@[0]@);
            let is_desc = if parts.len() > 1 {
                assert(ps[1] == parts@[1]@);
                let u = to_upper(parts[1].as_slice());
                equals_kw(u.as_slice(), "DESC")
            } else {
                false
            };
            order_by = Some((subseq(parts[0].as_slice(), 0, parts[0].len()), is_desc));
            assert(parts@[0]@.subrange(0, parts@[0]@.len() as int) =~= parts@[0]@);
        }
    }
    let mut limit_offset: Option<(usize, usize)> = None;
    if let Some(l) = limit_idx {
        let ls = trim_chars(subseq(rest, l + 5, n).as_slice());
        assert(rest@.subrange(l + 5, n as int) =~= rest@.skip(l + 5));
        let uls = to_upper(ls.as_slice());
        let _m = uls.len();
        let (lv, ov): (Vec<char>, Option<Vec<char>>) = match find_kw(uls.as_slice(), "OFFSET") {
            Some(off) => {
                let a = trim_chars(subseq(ls.as_slice(), 0, off).as_slice());
                let b = trim_chars(subseq(ls.as_slice(), off + 6, ls.len()).as_slice());
                assert(ls@.subrange(0, off as int) =~= ls@.take(off as int));
                assert(ls@.subrange(off + 6, ls@.len() as int) =~= ls@.skip(off + 6));
                (a, Some(b))
            },
            None => (subseq(ls.as_slice(), 0, ls.len()), None),
        };
        assert(ls@.subrange(0, ls@.len() as int) =~= ls@);
        match parse_usize_exec(lv.as_slice()) {
            Some(limit_num) => {
                let offset_num: usize = match ov {
                    Some(o) => match parse_usize_exec(o.as_slice()) {
                        Some(m) => m,
                        None => 0,
                    },
                    None => 0,
                };
                limit_offset = Some((limit_num, offset_num));
            },
            None => {},
        }
    }
    Some((main, order_by, limit_offset))
}

fn err_outcome(e: ParseError) -> (r: Option<Result<Statement, ParseError>>)
    ensures
        outcome_view(r) == Some(Err::<StmtView, ErrView>(e.view())),
{
    Some(Err(e))
}

/// A table name, optionally followed by `WHERE col = value`.
fn parse_table_and_where(part: &[char]) -> (r: Result<(Vec<char>, Option<(String, String)>), ParseError>)
    ensures
        match r {
            Ok((t, wc)) => spec_table_and_where(part@) == Ok::<(Text, Option<Pair>), ErrView>(
                (t@, pair_view(wc)),
            ),
            Err(e) => spec_table_and_where(part@) == Err::<(Text, Option<Pair>), ErrView>(e.view()),
        },
{
    let up = to_upper(part);
    let n = part.len();
    match find_kw(up.as_slice(), "WHERE") {
        Some(w) => {
            proof {
                reveal_strlit("WHERE");
            }
            let cond = trim_chars(subseq(part, w + 5, n).as_slice());
            assert(part@.subrange(w + 5, n as int) =~= part@.skip(w + 5));
            match parse_where_equality(cond.as_slice()) {
                Ok(wc) => {
                    let t = trim_chars(subseq(part, 0, w).as_slice());
                    assert(part@.subrange(0, w as int) =~= part@.take(w as int));
                    Ok((t, Some(pair_strings(wc))))
                },
                Err(e) => Err(e),
            }
        },
        None => {
            assert(part@.subrange(0, n as int) =~= part@);
            Ok((subseq(part, 0, n), None))
        },
    }
}

impl Parser {
    fn parse_create_schema(sql: &[char]) -> (r: Option<Result<Statement, ParseError>>)
        ensures
            outcome_view(r) == spec_create_schema(sql@),
    {
        if sql.len() < 13 {
            return None;
        }
        let name = trim_chars(subseq(sql, 13, sql.len()).as_slice());
        assert(sql@.subrange(13, sql@.len() as int) =~= sql@.skip(13));
        match validate_identifier(name.as_slice()) {
            Some(e) => err_outcome(e),
            None => Some(Ok(Statement::CreateSchema { schema_name: string_of(name.as_slice()) })),
        }
    }

    fn parse_create_table(sql: &[char]) -> (r: Option<Result<Statement, ParseError>>)
        ensures
            outcome_view(r) == spec_create_table(sql@),
    {
        let n = sql.len();
        proof {
            reveal_strlit(" ");
            reveal_strlit("(");
        }
        let i = match find_kw(sql, " ") {
            None => {
                return err_outcome(ParseError::InvalidCreateTable);
            },
            Some(i) => i,
        };
        let r1 = subseq(sql, i + 1, n);
        assert(r1@ =~= sql@.skip(i + 1));
        let j = match find_kw(r1.as_slice(), " ") {
            None => {
                return err_outcome(ParseError::InvalidCreateTable);
            },
            Some(j) => j,
        };
        let tc = subseq(r1.as_slice(), j + 1, r1.len());
        assert(tc@ =~= r1@.skip(j + 1));
        let tlen = tc.len();
        let p = match find_kw(tc.as_slice(), "(") {
            None => {
                return err_outcome(ParseError::MissingColumnDefinitions);
            },
            Some(p) => p,
        };
        let table_name = trim_chars(subseq(tc.as_slice(), 0, p).as_slice());
        assert(tc@.subrange(0, p as int) =~= tc@.take(p as int));
        let end = match rfind_char_exec(tc.as_slice(), ')') {
            Some(e) => e,
            None => tlen,
        };
        proof {
            lemma_rfind_bounds(tc@, ')', tc@.len() as int);
        }
        if end < p + 1 {
            return None;
        }
        let cols_str = subseq(tc.as_slice(), p + 1, end);
        let pieces = split_char_exec(cols_str.as_slice(), ',');
        let columns = trim_each(pieces);
        match validate_identifier(table_name.as_slice()) {
            Some(e) => {
                return err_outcome(e);
            },
            None => {},
        }
        match first_bad_identifier_exec(&columns, true) {
            Some(e) => {
                return err_outcome(e);
            },
            None => {},
        }
        let cols = strings_of(&columns);
        Some(Ok(Statement::CreateTable { table_name: string_of(table_name.as_slice()), columns: cols }))
    }

    fn parse_create_index(sql: &[char]) -> (r: Option<Result<Statement, ParseError>>)
        ensures
            outcome_view(r) == spec_create_index(sql@),
    {
        let n = sql.len();
        let up = to_upper(sql);
        proof {
            reveal_strlit(" ON ");
            reveal_strlit("(");
        }
        let on = match find_kw(up.as_slice(), " ON ") {
            None => {
                return err_outcome(ParseError::MissingOnInCreateIndex);
            },
            Some(on) => on,
        };
        if on < 12 {
            return None;
        }
        let index_name = trim_chars(subseq(sql, 12, on).as_slice());
        let rest = trim_chars(subseq(sql, on + 4, n).as_slice());
        let _rlen = rest.len();
        assert(sql@.subrange(on + 4, n as int) =~= sql@.skip(on + 4));
        let p = match find_kw(rest.as_slice(), "(") {
            None => {
                return err_outcome(ParseError::MissingOpenParenInCreateIndex);
            },
            Some(p) => p,
        };
        let end = match rfind_char_exec(rest.as_slice(), ')') {
            None => {
                return err_outcome(ParseError::MissingCloseParenInCreateIndex);
            },
            Some(e) => e,
        };
        proof {
            lemma_rfind_bounds(rest@, ')', rest@.len() as int);
        }
        if end < p + 1 {
            return None;
        }
        let table_name = trim_chars(subseq(rest.as_slice(), 0, p).as_slice());
        assert(rest@.subrange(0, p as int) =~= rest@.take(p as int));
        let cols_raw = trim_chars(subseq(rest.as_slice(), p + 1, end).as_slice());
        let columns = trim_each(split_char_exec(cols_raw.as_slice(), ','));
        match validate_identifier(table_name.as_slice()) {
            Some(e) => {
                return err_outcome(e);
            },
            None => {},
        }
        match first_bad_identifier_exec(&columns, false) {
            Some(e) => {
                return err_outcome(e);
            },
            None => {},
        }
        Some(
            Ok(
                Statement::CreateIndex {
                    index_name: string_of(index_name.as_slice()),
                    table_name: string_of(table_name.as_slice()),
                    columns: strings_of(&columns),
                },
            ),
        )
    }

    fn parse_insert(sql: &[char]) -> (r: Option<Result<Statement, ParseError>>)
        ensures
            outcome_view(r) == spec_insert(sql@),
    {
        let n = sql.len();
        let up = to_upper(sql);
        proof {
            reveal_strlit("VALUES");
        }
        let vi = match find_kw(up.as_slice(), "VALUES") {
            None => {
                return err_outcome(ParseError::MissingValues);
            },
            Some(v) => v,
        };
        if vi < 11 {
            return None;
        }
        let table_name = trim_chars(subseq(sql, 11, vi).as_slice());
        let vp = trim_chars(subseq(sql, vi + 6, n).as_slice());
        assert(sql@.subrange(vi + 6, n as int) =~= sql@.skip(vi + 6));
        let vlen = vp.len();
        if !(vlen > 0 && vp[0] == '(') || !(vlen > 0 && vp[vlen - 1] == ')') {
            return err_outcome(ParseError::ValuesNotParenthesized);
        }
        let inner = subseq(vp.as_slice(), 1, vlen - 1);
        match split_values_respecting_quotes(inner.as_slice()) {
            Err(e) => err_outcome(e),
            Ok(values) => Some(
                Ok(
                    Statement::Insert {
                        table_name: string_of(table_name.as_slice()),
                        values: strings_of(&values),
                    },
                ),
            ),
        }
    }

    fn parse_update(sql: &[char]) -> (r: Option<Result<Statement, ParseError>>)
        ensures
            outcome_view(r) == spec_update(sql@),
    {
        let n = sql.len();
        let up = to_upper(sql);
        proof {
            reveal_strlit("SET");
            reveal_strlit("WHERE");
        }
        let si = match find_kw(up.as_slice(), "SET") {
            None => {
                return err_outcome(ParseError::MissingSet);
            },
            Some(x) => x,
        };
        let wi = match find_kw(up.as_slice(), "WHERE") {
            None => {
                return err_outcome(ParseError::MissingWhereInUpdate);
            },
            Some(x) => x,
        };
        if si < 6 || wi < si + 3 {
            return None;
        }
        let table_name = trim_chars(subseq(sql, 6, si).as_slice());
        let set_expr = trim_chars(subseq(sql, si + 3, wi).as_slice());
        match parse_assignment(set_expr.as_slice()) {
            Err(e) => err_outcome(e),
            Ok((column, value)) => {
                let where_expr = trim_chars(subseq(sql, wi + 5, n).as_slice());
                assert(sql@.subrange(wi + 5, n as int) =~= sql@.skip(wi + 5));
                match parse_assignment(where_expr.as_slice()) {
                    Err(e) => err_outcome(e),
                    Ok((_, pk_val)) => Some(
                        Ok(
                            Statement::Update {
                                table_name: string_of(table_name.as_slice()),
                                column: string_of(column.as_slice()),
                                value: string_of(value.as_slice()),
                                pk_val: string_of(pk_val.as_slice()),
                            },
                        ),
                    ),
                }
            },
        }
    }

    fn parse_delete(sql: &[char]) -> (r: Option<Result<Statement, ParseError>>)
        ensures
            outcome_view(r) == spec_delete(sql@),
    {
        let n = sql.len();
        let up = to_upper(sql);
        proof {
            reveal_strlit("WHERE");
        }
        let wi = match find_kw(up.as_slice(), "WHERE") {
            None => {
                return err_outcome(ParseError::MissingWhereInDelete);
            },
            Some(x) => x,
        };
        if wi < 11 {
            return None;
        }
        let table_name = trim_chars(subseq(sql, 11, wi).as_slice());
        let where_expr = trim_chars(subseq(sql, wi + 5, n).as_slice());
        assert(sql@.subrange(wi + 5, n as int) =~= sql@.skip(wi + 5));
        match parse_assignment(where_expr.as_slice()) {
            Err(e) => err_outcome(e),
            Ok((_, pk_val)) => Some(
                Ok(
                    Statement::Delete {
                        table_name: string_of(table_name.as_slice()),
                        pk_val: string_of(pk_val.as_slice()),
                    },
                ),
            ),
        }
    }

    fn parse_select_join(rest: &[char]) -> (r: Option<Result<Statement, ParseError>>)
        ensures
            outcome_view(r) == spec_select_join(rest@),
    {
        let n = rest.len();
        let ur = to_upper(rest);
        proof {
            reveal_strlit("LEFT JOIN");
            reveal_strlit("JOIN");
            reveal_strlit(" ON ");
        }
        let is_left = find_kw(ur.as_slice(), "LEFT JOIN").is_some();
        let found = if is_left {
            find_kw(ur.as_slice(), "LEFT JOIN")
        } else {
            find_kw(ur.as_slice(), "JOIN")
        };
        let kw_len: usize = if is_left {
            9
        } else {
            4
        };
        let ghost kw = if is_left {
            "LEFT JOIN"@
        } else {
            "JOIN"@
        };
        assert(kw.len() == kw_len);
        let ji = match found {
            None => {
                return None;
            },
            Some(j) => j,
        };
        let left_table = trim_chars(subseq(rest, 0, ji).as_slice());
        assert(rest@.subrange(0, ji as int) =~= rest@.take(ji as int));
        let oi = match find_kw(ur.as_slice(), " ON ") {
            None => {
                return err_outcome(ParseError::MissingOnInJoin);
            },
            Some(o) => o,
        };
        if oi < ji + kw_len {
            return None;
        }
        let right_table = trim_chars(subseq(rest, ji + kw_len, oi).as_slice());
        let on_cond = trim_chars(subseq(rest, oi + 4, n).as_slice());
        assert(rest@.subrange(oi + 4, n as int) =~= rest@.skip(oi + 4));
        match parse_join_condition(on_cond.as_slice()) {
            Err(e) => err_outcome(e),
            Ok((lc, rc)) => Some(
                Ok(
                    Statement::SelectJoin {
                        left_table: string_of(left_table.as_slice()),
                        right_table: string_of(right_table.as_slice()),
                        left_col: string_of(lc.as_slice()),
                        right_col: string_of(rc.as_slice()),
                        is_left_join: is_left,
                    },
                ),
            ),
        }
    }

    fn parse_select_group(target: &[char], rest: &[char], gb: usize) -> (r: Option<
        Result<Statement, ParseError>,
    >)
        requires
            gb + 8 <= rest@.len(),
        ensures
            outcome_view(r) == spec_select_group(target@, rest@, gb as int),
    {
        let n = rest.len();
        let before = trim_chars(subseq(rest, 0, gb).as_slice());
        assert(rest@.subrange(0, gb as int) =~= rest@.take(gb as int));
        let after = trim_chars(subseq(rest, gb + 8, n).as_slice());
        assert(rest@.subrange(gb + 8, n as int) =~= rest@.skip(gb + 8));
        let alen = after.len();
        let ua = to_upper(after.as_slice());
        proof {
            reveal_strlit("HAVING");
            reveal_strlit("(");
        }
        let (group_col, having_clause): (Vec<char>, Option<(String, String)>) = match find_kw(
            ua.as_slice(),
            "HAVING",
        ) {
            Some(h) => {
                let hc_text = trim_chars(subseq(after.as_slice(), h + 6, alen).as_slice());
                assert(after@.subrange(h + 6, alen as int) =~= after@.skip(h + 6));
                match parse_having_condition(hc_text.as_slice()) {
                    Err(e) => {
                        return err_outcome(e);
                    },
                    Ok(hc) => {
                        let g = trim_chars(subseq(after.as_slice(), 0, h).as_slice());
                        assert(after@.subrange(0, h as int) =~= after@.take(h as int));
                        (g, Some(pair_strings(hc)))
                    },
                }
            },
            None => {
                assert(after@.subrange(0, alen as int) =~= after@);
                (subseq(after.as_slice(), 0, alen), None)
            },
        };
        let parts = trim_each(split_char_exec(target, ','));
        if parts.len() != 2 {
            return err_outcome(ParseError::GroupByTargets);
        }
        let ghost ps = chars_view(parts@);
        assert(ps[1] == parts@[1]@);
        let ap = to_upper(parts[1].as_slice());
        let _m = ap.len();
        let fe = match find_kw(ap.as_slice(), "(") {
            None => {
                return err_outcome(ParseError::InvalidGroupByAggregate);
            },
            Some(f) => f,
        };
        let ce = match rfind_char_exec(ap.as_slice(), ')') {
            Some(c) => c,
            None => ap.len(),
        };
        proof {
            lemma_rfind_bounds(ap@, ')', ap@.len() as int);
        }
        if ce < fe + 1 {
            return None;
        }
        let func = subseq(ap.as_slice(), 0, fe);
        assert(ap@.subrange(0, fe as int) =~= ap@.take(fe as int));
        let agg_col = trim_chars(subseq(parts[1].as_slice(), fe + 1, ce).as_slice());
        match parse_table_and_where(before.as_slice()) {
            Err(e) => err_outcome(e),
            Ok((table_name, where_clause)) => Some(
                Ok(
                    Statement::SelectGroupAggregate {
                        group_col: string_of(group_col.as_slice()),
                        func: string_of(func.as_slice()),
                        agg_col: string_of(agg_col.as_slice()),
                        table_name: string_of(table_name.as_slice()),
                        where_clause,
                        having_clause,
                    },
                ),
            ),
        }
    }

    fn parse_select_aggregate(target: &[char], rest: &[char]) -> (r: Option<
        Result<Statement, ParseError>,
    >)
        ensures
            outcome_view(r) == spec_select_aggregate(target@, rest@),
    {
        proof {
            reveal_strlit("(");
        }
        let _m = target.len();
        let fe = match find_kw(target, "(") {
            None => {
                return None;
            },
            Some(f) => f,
        };
        let ce = match rfind_char_exec(target, ')') {
            Some(c) => c,
            None => target.len(),
        };
        proof {
            lemma_rfind_bounds(target@, ')', target@.len() as int);
        }
        if ce < fe + 1 {
            return None;
        }
        let func = to_upper(subseq(target, 0, fe).as_slice());
        assert(target@.subrange(0, fe as int) =~= target@.take(fe as int));
        let column = trim_chars(subseq(target, fe + 1, ce).as_slice());
        match parse_table_and_where(rest) {
            Err(e) => err_outcome(e),
            Ok((table_name, where_clause)) => Some(
                Ok(
                    Statement::SelectAggregate {
                        func: string_of(func.as_slice()),
                        column: string_of(column.as_slice()),
                        table_name: string_of(table_name.as_slice()),
                        where_clause,
                    },
                ),
            ),
        }
    }

    fn parse_select_plain(rest: &[char]) -> (r: Option<Result<Statement, ParseError>>)
        ensures
            outcome_view(r) == spec_select_plain(rest@),
    {
        let (tw, order_by, limit_offset) = match parse_order_by_and_limit(rest) {
            None => {
                return None;
            },
            Some(x) => x,
        };
        let ob: Option<(String, bool)> = match order_by {
            Some((c, d)) => Some((string_of(c.as_slice()), d)),
            None => None,
        };
        let twlen = tw.len();
        let utw = to_upper(tw.as_slice());
        proof {
            reveal_strlit("WHERE");
        }
        match find_kw(utw.as_slice(), "WHERE") {
            Some(w) => {
                let table_name = trim_chars(subseq(tw.as_slice(), 0, w).as_slice());
                assert(tw@.subrange(0, w as int) =~= tw@.take(w as int));
                let cond = trim_chars(subseq(tw.as_slice(), w + 5, twlen).as_slice());
                assert(tw@.subrange(w + 5, twlen as int) =~= tw@.skip(w + 5));
                let clen = cond.len();
                let ops = range_ops_exec();
                match first_op_exec(cond.as_slice(), &ops) {
                    Some((k, i)) => {
                        let op = &ops[k];
                        proof {
                            lemma_first_op(cond@, chars_view(ops@), 0);
                            lemma_find_from_bounds(cond@, op@, 0);
                        }
                        let column = trim_chars(subseq(cond.as_slice(), 0, i).as_slice());
                        assert(cond@.subrange(0, i as int) =~= cond@.take(i as int));
                        let v = trim_chars(subseq(cond.as_slice(), i + op.len(), clen).as_slice());
                        assert(cond@.subrange(i + op@.len(), clen as int) =~= cond@.skip(
                            i + op@.len(),
                        ));
                        let val = trim_char_exec(v.as_slice(), '\'');
                        Some(
                            Ok(
                                Statement::SelectRange {
                                    table_name: string_of(table_name.as_slice()),
                                    column: string_of(column.as_slice()),
                                    op: string_of(op.as_slice()),
                                    val: string_of(val.as_slice()),
                                },
                            ),
                        )
                    },
                    None => match parse_where_equality(cond.as_slice()) {
                        Err(e) => err_outcome(e),
                        Ok(wc) => Some(
                            Ok(
                                Statement::Select {
                                    table_name: string_of(table_name.as_slice()),
                                    where_clause: Some(pair_strings(wc)),
                                    order_by: ob,
                                    limit_offset,
                                },
                            ),
                        ),
                    },
                }
            },
            None => Some(
                Ok(
                    Statement::Select {
                        table_name: string_of(tw.as_slice()),
                        where_clause: None,
                        order_by: ob,
                        limit_offset,
                    },
                ),
            ),
        }
    }

    fn parse_select(sql: &[char]) -> (r: Option<Result<Statement, ParseError>>)
        ensures
            outcome_view(r) == spec_select(sql@),
    {
        let n = sql.len();
        let up = to_upper(sql);
        proof {
            reveal_strlit("FROM");
            reveal_strlit("GROUP BY");
        }
        let fi = match find_kw(up.as_slice(), "FROM") {
            None => {
                return err_outcome(ParseError::MissingFrom);
            },
            Some(f) => f,
        };
        if fi < 6 {
            return None;
        }
        let target = trim_chars(subseq(sql, 6, fi).as_slice());
        let rest = trim_chars(subseq(sql, fi + 4, n).as_slice());
        assert(sql@.subrange(fi + 4, n as int) =~= sql@.skip(fi + 4));
        let ur = to_upper(rest.as_slice());
        if find_kw(ur.as_slice(), " JOIN ").is_some() {
            return Self::parse_select_join(rest.as_slice());
        }
        match find_kw(ur.as_slice(), "GROUP BY") {
            Some(gb) => Self::parse_select_group(target.as_slice(), rest.as_slice(), gb),
            None => {
                let ut = to_upper(target.as_slice());
                if starts_with_kw(ut.as_slice(), "COUNT(") || starts_with_kw(ut.as_slice(), "SUM(")
                    || starts_with_kw(ut.as_slice(), "AVG(") {
                    Self::parse_select_aggregate(target.as_slice(), rest.as_slice())
                } else {
                    Self::parse_select_plain(rest.as_slice())
                }
            },
        }
    }

    /// Parses a statement, or returns `None` for the inputs that the parser cannot index into
    /// (such as a closing bracket before its opening one).
    pub fn try_parse(sql: &str) -> (r: Option<Result<Statement, ParseError>>)
        ensures
            outcome_view(r) == spec_parse(sql@),
    {
        let raw = chars_of(sql);
        let t = trim_chars(raw.as_slice());
        let s = trim_end_char_exec(t.as_slice(), ';');
        let up = to_unicode_upper(s.as_slice());
        Self::dispatch(s.as_slice(), up.as_slice())
    }

    /// Parses statement text `s` whose upper-cased text is `u`: the leading keywords of `u`
    /// choose the kind of statement, which is then read from `s`.
    pub fn dispatch(s: &[char], u: &[char]) -> (r: Option<Result<Statement, ParseError>>)
        ensures
            outcome_view(r) == spec_dispatch(s@, u@),
    {
        if starts_with_kw(u, "CREATE SCHEMA") {
            Self::parse_create_schema(s)
        } else if starts_with_kw(u, "CREATE INDEX") {
            Self::parse_create_index(s)
        } else if starts_with_kw(u, "CREATE TABLE") {
            Self::parse_create_table(s)
        } else if starts_with_kw(u, "INSERT INTO") {
            Self::parse_insert(s)
        } else if starts_with_kw(u, "SELECT") {
            Self::parse_select(s)
        } else if starts_with_kw(u, "UPDATE") {
            Self::parse_update(s)
        } else if starts_with_kw(u, "DELETE FROM") {
            Self::parse_delete(s)
        } else if starts_with_kw(u, "DROP TABLE") {
            Self::parse_drop_table(s)
        } else if equals_kw(u, "SHOW TABLES") {
            Some(Ok(Statement::ShowTables))
        } else if equals_kw(u, "SHOW SCHEMAS") {
            Some(Ok(Statement::ShowSchemas))
        } else if equals_kw(u, "BEGIN") {
            Some(Ok(Statement::Begin))
        } else if equals_kw(u, "COMMIT") {
            Some(Ok(Statement::Commit))
        } else if equals_kw(u, "ROLLBACK") {
            Some(Ok(Statement::Rollback))
        } else {
            err_outcome(ParseError::UnrecognizedStatement)
        }
    }

    /// Parses a SQL statement.
    pub fn parse(sql: &str) -> (r: Result<Statement, ParseError>)
        requires
            spec_parse(sql@) is Some,
        ensures
            outcome_view(Some(r)) == spec_parse(sql@),
    {
        match Self::try_parse(sql) {
            Some(r) => r,
            None => Err(ParseError::UnrecognizedStatement),
        }
    }

    fn parse_drop_table(sql: &[char]) -> (r: Option<Result<Statement, ParseError>>)
        ensures
            outcome_view(r) == spec_drop_table(sql@),
    {
        if sql.len() < 10 {
            return None;
        }
        let name = trim_chars(subseq(sql, 10, sql.len()).as_slice());
        assert(sql@.subrange(10, sql@.len() as int) =~= sql@.skip(10));
        match validate_identifier(name.as_slice()) {
            Some(e) => err_outcome(e),
            None => Some(Ok(Statement::DropTable { table_name: string_of(name.as_slice()) })),
        }
    }
}


/// A statement whose upper-cased text starts with no statement keyword and is none of the
/// one-word statements is refused as unrecognized.
pub proof fn lemma_unrecognized_statement(raw: Text)
    requires
        ({
            let up = unicode_upper(statement_text(raw));
            &&& !starts_with(up, "CREATE SCHEMA"@)
            &&& !starts_with(up, "CREATE INDEX"@)
            &&& !starts_with(up, "CREATE TABLE"@)
            &&& !starts_with(up, "INSERT INTO"@)
            &&& !starts_with(up, "SELECT"@)
            &&& !starts_with(up, "UPDATE"@)
            &&& !starts_with(up, "DELETE FROM"@)
            &&& !starts_with(up, "DROP TABLE"@)
            &&& up != "SHOW TABLES"@
            &&& up != "SHOW SCHEMAS"@
            &&& up != "BEGIN"@
            &&& up != "COMMIT"@
            &&& up != "ROLLBACK"@
        }),
    ensures
        spec_parse(raw) == Some(Err::<StmtView, ErrView>(ErrView::UnrecognizedStatement)),
{
}

/// A name that starts with the reserved `__` prefix (once trimmed) is rejected as reserved.
pub proof fn lemma_reserved_prefix_rejected(name: Text)
    requires
        starts_with(trim(name), "__"@),
    ensures
        check_identifier(name) == Some(ErrView::ReservedPrefix { identifier: trim(name) }),
{
}


/// The text that follows `ORDER BY` in an ordered query: a space and the column, then a space
/// and the direction word when there is one.
pub open spec fn order_clause(col: Text, dir: Option<Text>) -> Text {
    match dir {
        Some(d) => " "@ + col + " "@ + d,
        None => " "@ + col,
    }
}

/// `ORDER BY col` sorts on `col`, ascending unless the direction word is DESC (in any letter
/// case): with no direction word, or with ASC, ascending; with DESC, descending. Stated for
/// every text `main` before the keywords in which `ORDER BY` first appears where these stand,
/// with no `LIMIT` clause.
pub proof fn lemma_order_direction(main: Text, col: Text, dir: Option<Text>)
    requires
        is_word(col),
        dir matches Some(d) ==> is_word(d),
        find(upper(main + " ORDER BY"@ + order_clause(col, dir)), "ORDER BY"@) == Some((main.len() + 1) as int),
        find(upper(main + " ORDER BY"@ + order_clause(col, dir)), "LIMIT"@) is None,
    ensures
        spec_order_limit(main + " ORDER BY"@ + order_clause(col, dir)) matches Some((_, Some((c, desc)), _))
            && c == col && desc == (dir matches Some(d) && upper(d) == "DESC"@),
{
    reveal_strlit(" ORDER BY");
    reveal_strlit(" ");
    let rest = main + " ORDER BY"@ + order_clause(col, dir);
    let o: int = (main.len() + 1) as int;
    let tail = order_clause(col, dir);
    assert(rest.subrange(o + 8, rest.len() as int) =~= tail);
    match dir {
        Some(d) => {
            let x = col + " "@ + d;
            assert(tail =~= " "@ + x);
            assert(x[0] == col[0]);
            assert(x.last() == d[d.len() - 1]);
            lemma_trim_after_space(x);
            lemma_tokens_of_words(col, d);
        },
        None => {
            assert(col.last() == col[col.len() - 1]);
            lemma_trim_after_space(col);
            lemma_tokens_of_words(col, col);
        },
    }
}

/// Rows are ordered descending only when DESC is written: when the `ORDER BY` clause is read
/// as descending, the word DESC (in any letter case) stands after the `ORDER BY` keywords, so
/// a clause that names only its column, or adds ASC, orders ascending.
pub proof fn lemma_descending_only_by_desc(rest: Text)
    ensures
        spec_order_limit(rest) matches Some((_, Some((_, desc)), _)) ==> (desc ==> exists|k: int|
            find(upper(rest), "ORDER BY"@)->0 + 8 <= k && #[trigger] occurs_at(upper(rest), "DESC"@, k)),
{
    let up = upper(rest);
    let li = find(up, "LIMIT"@);
    let oi = find(up, "ORDER BY"@);
    lemma_find_from_bounds(up, "LIMIT"@, 0);
    lemma_find_from_bounds(up, "ORDER BY"@, 0);
    if let Some(o) = oi {
        let order_end: int = match li {
            Some(l) => if l > o { l } else { rest.len() as int },
            None => rest.len() as int,
        };
        if o + 8 <= order_end {
            let sub = rest.subrange(o + 8, order_end);
            let parts = tokens(trim(sub));
            if parts.len() > 1 && upper(parts[1]) == "DESC"@ {
                lemma_trim_stretch(sub);
                let (x, y) = choose|x: int, y: int| 0 <= x <= y <= sub.len() && trim(sub) == sub.subrange(x, y);
                lemma_tokens_are_stretches(trim(sub), 1);
                let (a, b) = choose|a: int, b: int| 0 <= a <= b <= trim(sub).len() && parts[1] == trim(sub).subrange(a, b);
                let k = o + 8 + x + a;
                assert(parts[1] =~= rest.subrange(k, o + 8 + x + b));
                lemma_upper_stretch(rest, k, o + 8 + x + b);
                reveal_strlit("DESC");
                assert(occurs_at(up, "DESC"@, k));
            }
        }
    }
}

/// A `CREATE SCHEMA` or `DROP TABLE` statement whose name, once trimmed, is empty or starts
/// with the reserved `__` prefix is rejected.
pub proof fn lemma_bad_name_rejected(raw: Text)
    requires
        ({
            let sql = statement_text(raw);
            let up = unicode_upper(sql);
            ||| (starts_with(up, "CREATE SCHEMA"@) && sql.len() >= 13
                && (trim(sql.skip(13)).len() == 0 || starts_with(trim(sql.skip(13)), "__"@)))
            ||| (starts_with(up, "DROP TABLE"@) && sql.len() >= 10
                && (trim(sql.skip(10)).len() == 0 || starts_with(trim(sql.skip(10)), "__"@)))
        }),
    ensures
        spec_parse(raw) matches Some(Err(_)),
{
    let sql = statement_text(raw);
    let up = unicode_upper(sql);
    reveal_strlit("CREATE SCHEMA");
    reveal_strlit("CREATE INDEX");
    reveal_strlit("CREATE TABLE");
    reveal_strlit("INSERT INTO");
    reveal_strlit("SELECT");
    reveal_strlit("UPDATE");
    reveal_strlit("DELETE FROM");
    reveal_strlit("DROP TABLE");
    if starts_with(up, "CREATE SCHEMA"@) {
        lemma_trim_idempotent(sql.skip(13));
        assert(!starts_with(up, "DROP TABLE"@)) by {
            assert(up.subrange(0, 13)[0] == up[0]);
            if starts_with(up, "DROP TABLE"@) {
                assert(up.subrange(0, 10)[0] == up[0]);
            }
        }
    } else {
        assert(up.subrange(0, 10)[0] == up[0] && up.subrange(0, 10)[1] == up[1]);
        lemma_trim_idempotent(sql.skip(10));
        assert(!starts_with(up, "CREATE INDEX"@) && !starts_with(up, "CREATE TABLE"@) && !starts_with(up, "INSERT INTO"@)) by {
            if starts_with(up, "CREATE INDEX"@) || starts_with(up, "CREATE TABLE"@) || starts_with(up, "INSERT INTO"@) {
                assert(up.subrange(0, 11)[0] == up[0]);
            }
        }
        assert(!starts_with(up, "SELECT"@) && !starts_with(up, "UPDATE"@)) by {
            if starts_with(up, "SELECT"@) || starts_with(up, "UPDATE"@) {
                assert(up.subrange(0, 6)[0] == up[0]);
            }
        }
        assert(!starts_with(up, "DELETE FROM"@)) by {
            if starts_with(up, "DELETE FROM"@) {
                assert(up.subrange(0, 11)[1] == up[1]);
            }
        }
    }
}

/// Every name that a `CREATE SCHEMA`, `DROP TABLE` or `CREATE TABLE` statement is accepted
/// with is non-empty and free of the reserved `__` prefix, as is the first word of each
/// column definition of an accepted `CREATE TABLE`.
pub proof fn lemma_accepted_names_valid(raw: Text)
    ensures
        ({
            let up = unicode_upper(statement_text(raw));
            starts_with(up, "CREATE SCHEMA"@) ==> (spec_parse(raw) matches Some(Ok(st))
                ==> (st matches StmtView::CreateSchema { schema_name } && schema_name.len() > 0 && !starts_with(schema_name, "__"@)))
        }),
        ({
            let up = unicode_upper(statement_text(raw));
            starts_with(up, "DROP TABLE"@) ==> (spec_parse(raw) matches Some(Ok(st))
                ==> (st matches StmtView::DropTable { table_name } && table_name.len() > 0 && !starts_with(table_name, "__"@)))
        }),
        ({
            let up = unicode_upper(statement_text(raw));
            starts_with(up, "CREATE TABLE"@) ==> (spec_parse(raw) matches Some(Ok(st))
                ==> (st matches StmtView::CreateTable { table_name, columns } && table_name.len() > 0
                    && !starts_with(table_name, "__"@) && first_bad_identifier(columns, true) is None))
        }),
{
    let sql = statement_text(raw);
    let up = unicode_upper(sql);
    reveal_strlit("CREATE SCHEMA");
    reveal_strlit("CREATE INDEX");
    reveal_strlit("CREATE TABLE");
    reveal_strlit("INSERT INTO");
    reveal_strlit("SELECT");
    reveal_strlit("UPDATE");
    reveal_strlit("DELETE FROM");
    reveal_strlit("DROP TABLE");
    if starts_with(up, "CREATE SCHEMA"@) {
        if sql.len() >= 13 {
            lemma_trim_idempotent(sql.skip(13));
        }
        assert(!starts_with(up, "DROP TABLE"@) && !starts_with(up, "CREATE TABLE"@)) by {
            assert(up.subrange(0, 13)[0] == up[0] && up.subrange(0, 13)[7] == up[7]);
            if starts_with(up, "DROP TABLE"@) {
                assert(up.subrange(0, 10)[0] == up[0]);
            }
            if starts_with(up, "CREATE TABLE"@) {
                assert(up.subrange(0, 12)[7] == up[7]);
            }
        }
    } else if starts_with(up, "CREATE TABLE"@) {
        assert(up.subrange(0, 12)[0] == up[0] && up.subrange(0, 12)[7] == up[7]);
        assert(!starts_with(up, "CREATE INDEX"@)) by {
            if starts_with(up, "CREATE INDEX"@) {
                assert(up.subrange(0, 12)[7] == up[7]);
            }
        }
        assert(!starts_with(up, "DROP TABLE"@)) by {
            if starts_with(up, "DROP TABLE"@) {
                assert(up.subrange(0, 10)[0] == up[0]);
            }
        }
        if let Some(tc) = third_piece(sql) {
            if let Some(p) = find(tc, "("@) {
                lemma_trim_idempotent(tc.take(p));
            }
        }
    } else if starts_with(up, "DROP TABLE"@) {
        assert(up.subrange(0, 10)[0] == up[0] && up.subrange(0, 10)[1] == up[1]);
        if sql.len() >= 10 {
            lemma_trim_idempotent(sql.skip(10));
        }
        assert(!starts_with(up, "CREATE INDEX"@) && !starts_with(up, "INSERT INTO"@)) by {
            if starts_with(up, "CREATE INDEX"@) || starts_with(up, "INSERT INTO"@) {
                assert(up.subrange(0, 11)[0] == up[0]);
            }
        }
        assert(!starts_with(up, "SELECT"@) && !starts_with(up, "UPDATE"@)) by {
            if starts_with(up, "SELECT"@) || starts_with(up, "UPDATE"@) {
                assert(up.subrange(0, 6)[0] == up[0]);
            }
        }
        assert(!starts_with(up, "DELETE FROM"@)) by {
            if starts_with(up, "DELETE FROM"@) {
                assert(up.subrange(0, 11)[1] == up[1]);
            }
        }
    }
}

/// A statement parses the same with a `;` after it: for text without surrounding whitespace,
/// the `;` is dropped before the statement is read.
pub proof fn lemma_trailing_semicolon_ignored(s: Text)
    requires
        trim(s) == s,
        s.len() == 0 || !crate::text::is_ws(s[0]),
    ensures
        spec_parse(s.push(';')) == spec_parse(s),
{
    let t = s.push(';');
    assert(crate::text::skip_ws(t, 0) == 0);
    assert(crate::text::back_ws(t, t.len() as int) == t.len());
    assert(trim(t) =~= t);
    assert(t.drop_last() =~= s);
    assert(trim_end_char(t, ';') == trim_end_char(s, ';'));
    assert(statement_text(t) == statement_text(s));
}

} // verus!
