//! Volcano-style query operators: each yields its rows one at a time after it is opened.
use crate::text::{chars_of, string_of};
use vstd::prelude::*;

verus! {

/// The cells of a row as character sequences.
pub type RowView = Seq<Seq<char>>;

pub open spec fn row_view(r: Vec<String>) -> RowView {
    r@.map_values(|s: String| s@)
}

pub open spec fn rows_view(rs: Seq<Vec<String>>) -> Seq<RowView> {
    rs.map_values(|r: Vec<String>| row_view(r))
}

/// Errors from query operators.
#[derive(Debug, Clone, PartialEq)]
pub enum ExecError {
    /// An operator could not produce rows.
    Unavailable,
}

/// The Volcano iterator interface for query operators.
pub trait ExecutionPlan {
    /// The rows the plan yields once opened, in order.
    spec fn output(&self) -> Seq<RowView>;

    /// How many rows the plan has yielded since it was opened.
    spec fn position(&self) -> int;

    /// Whether the plan is open and ready to yield rows.
    spec fn is_open(&self) -> bool;

    proof fn lemma_open_bounds(&self)
        requires
            self.is_open(),
        ensures
            0 <= self.position() <= self.output().len(),
    ;

    fn open(&mut self) -> (r: Result<(), ExecError>)
        ensures
            r is Ok,
            final(self).is_open(),
            final(self).position() == 0,
            final(self).output() == old(self).output(),
    ;

    fn next(&mut self) -> (r: Result<Option<Vec<String>>, ExecError>)
        requires
            old(self).is_open(),
        ensures
            final(self).is_open(),
            final(self).output() == old(self).output(),
            old(self).position() < old(self).output().len() ==> (r matches Ok(Some(row))
                && row_view(row) == old(self).output()[old(self).position()] && final(self).position() == old(self).position() + 1),
            old(self).position() >= old(self).output().len() ==> (r matches Ok(None) && final(self).position() == old(self).position()),
    ;

    fn close(&mut self) -> (r: Result<(), ExecError>)
        requires
            old(self).is_open(),
        ensures
            r is Ok,
            final(self).is_open(),
            final(self).output() == old(self).output(),
            final(self).position() == final(self).output().len(),
    ;
}

/// A copy of a row.
pub fn clone_row(r: &Vec<String>) -> (c: Vec<String>)
    ensures
        row_view(c) == row_view(*r),
{
    let mut c: Vec<String> = Vec::new();
    let mut i: usize = 0;
    while i < r.len()
        invariant
            i <= r@.len(),
            row_view(c) == row_view(*r).take(i as int),
        decreases r@.len() - i,
    {
        let s = r[i].clone();
        let ghost before = row_view(c);
        c.push(s);
        assert(row_view(c) =~= before.push(s@));
        assert(row_view(*r).take(i + 1) =~= row_view(*r).take(i as int).push(r@[i as int]@));
        i += 1;
    }
    assert(row_view(*r).take(i as int) =~= row_view(*r));
    c
}

/// Sequential scan over materialised rows.
pub struct SeqScanExec {
    rows: Vec<Vec<String>>,
    cursor: usize,
}

impl SeqScanExec {
    /// A scan over `rows`, positioned at the first row.
    pub fn new(rows: Vec<Vec<String>>) -> (s: SeqScanExec)
        ensures
            s.output() == rows_view(rows@),
            s.is_open(),
            s.position() == 0,
    {
        SeqScanExec { rows, cursor: 0 }
    }
}

impl ExecutionPlan for SeqScanExec {
    closed spec fn output(&self) -> Seq<RowView> {
        rows_view(self.rows@)
    }

    closed spec fn position(&self) -> int {
        self.cursor as int
    }

    closed spec fn is_open(&self) -> bool {
        self.cursor <= self.rows@.len()
    }

    proof fn lemma_open_bounds(&self) {
    }

    fn open(&mut self) -> (r: Result<(), ExecError>) {
        self.cursor = 0;
        Ok(())
    }

    fn next(&mut self) -> (r: Result<Option<Vec<String>>, ExecError>) {
        if self.cursor < self.rows.len() {
            let row = clone_row(&self.rows[self.cursor]);
            self.cursor += 1;
            Ok(Some(row))
        } else {
            Ok(None)
        }
    }

    fn close(&mut self) -> (r: Result<(), ExecError>) {
        self.cursor = self.rows.len();
        Ok(())
    }
}

/// Whether a row's cell at `idx` exists and equals `target`.
pub open spec fn cell_matches(row: RowView, idx: int, target: Seq<char>) -> bool {
    0 <= idx < row.len() && row[idx] == target
}

/// The rows whose cell at `idx` equals `target`, in order.
pub open spec fn matching(rows: Seq<RowView>, idx: int, target: Seq<char>) -> Seq<RowView>
    decreases rows.len(),
{
    if rows.len() == 0 {
        Seq::empty()
    } else {
        let prev = matching(rows.drop_last(), idx, target);
        if cell_matches(rows.last(), idx, target) {
            prev.push(rows.last())
        } else {
            prev
        }
    }
}

pub proof fn lemma_matching_step(rows: Seq<RowView>, k: int, idx: int, target: Seq<char>)
    requires
        0 <= k < rows.len(),
    ensures
        matching(rows.take(k + 1), idx, target) == if cell_matches(rows[k], idx, target) {
            matching(rows.take(k), idx, target).push(rows[k])
        } else {
            matching(rows.take(k), idx, target)
        },
{
    assert(rows.take(k + 1).drop_last() =~= rows.take(k));
}

/// The matches among the first `k` rows are a prefix of all the matches.
pub proof fn lemma_matching_prefix(rows: Seq<RowView>, k: int, idx: int, target: Seq<char>)
    requires
        0 <= k <= rows.len(),
    ensures
        matching(rows.take(k), idx, target).len() <= matching(rows, idx, target).len(),
        matching(rows, idx, target).take(matching(rows.take(k), idx, target).len() as int)
            == matching(rows.take(k), idx, target),
    decreases rows.len() - k,
{
    if k == rows.len() {
        assert(rows.take(k) =~= rows);
        assert(matching(rows, idx, target).take(matching(rows, idx, target).len() as int)
            =~= matching(rows, idx, target));
    } else {
        lemma_matching_prefix(rows, k + 1, idx, target);
        lemma_matching_step(rows, k, idx, target);
        let a = matching(rows.take(k), idx, target);
        let b = matching(rows.take(k + 1), idx, target);
        let m = matching(rows, idx, target);
        assert(m.take(a.len() as int) =~= m.take(b.len() as int).take(a.len() as int));
        assert(b.take(a.len() as int) =~= a);
    }
}

/// Filter operator (`WHERE col = value`).
pub struct FilterExec<C> {
    child: C,
    col_idx: usize,
    target_val: String,
}

impl<C: ExecutionPlan> FilterExec<C> {
    /// Keeps the child's rows whose cell at `col_idx` equals `target_val`.
    pub fn new(child: C, col_idx: usize, target_val: String) -> (f: FilterExec<C>)
        ensures
            f.output() == matching(child.output(), col_idx as int, target_val@),
    {
        FilterExec { child, col_idx, target_val }
    }
}

impl<C: ExecutionPlan> ExecutionPlan for FilterExec<C> {
    closed spec fn output(&self) -> Seq<RowView> {
        matching(self.child.output(), self.col_idx as int, self.target_val@)
    }

    closed spec fn position(&self) -> int {
        matching(
            self.child.output().take(self.child.position()),
            self.col_idx as int,
            self.target_val@,
        ).len() as int
    }

    closed spec fn is_open(&self) -> bool {
        self.child.is_open()
    }

    proof fn lemma_open_bounds(&self) {
        self.child.lemma_open_bounds();
        lemma_matching_prefix(
            self.child.output(),
            self.child.position(),
            self.col_idx as int,
            self.target_val@,
        );
    }

    fn open(&mut self) -> (r: Result<(), ExecError>) {
        let r = self.child.open();
        assert(self.child.output().take(0) =~= Seq::<RowView>::empty());
        r
    }

    fn next(&mut self) -> (r: Result<Option<Vec<String>>, ExecError>) {
        let ghost out = self.child.output();
        let ghost idx = self.col_idx as int;
        let ghost t = self.target_val@;
        let ghost p0 = matching(out.take(self.child.position()), idx, t);
        proof {
            self.child.lemma_open_bounds();
            lemma_matching_prefix(out, self.child.position(), idx, t);
        }
        loop
            invariant
                self.child.is_open(),
                self.child.output() == out,
                out == old(self).child.output(),
                p0 == matching(old(self).child.output().take(old(self).child.position()), idx, t),
                self.col_idx == old(self).col_idx,
                self.target_val == old(self).target_val,
                idx == self.col_idx,
                t == self.target_val@,
                matching(out.take(self.child.position()), idx, t) == p0,
                p0.len() <= matching(out, idx, t).len(),
            decreases out.len() - self.child.position(),
        {
            proof {
                self.child.lemma_open_bounds();
            }
            let ghost cpos = self.child.position();
            let next = self.child.next();
            match next {
                Ok(Some(row)) => {
                    proof {
                        lemma_matching_step(out, cpos, idx, t);
                    }
                    let keep = self.col_idx < row.len() && row[self.col_idx] == self.target_val;
                    assert(keep == cell_matches(out[cpos], idx, t));
                    if keep {
                        proof {
                            lemma_matching_prefix(out, cpos + 1, idx, t);
                            assert(matching(out, idx, t)[p0.len() as int] == matching(
                                out.take(cpos + 1),
                                idx,
                                t,
                            )[p0.len() as int]);
                        }
                        return Ok(Some(row));
                    }
                },
                Ok(None) => {
                    assert(out.take(cpos) =~= out);
                    return Ok(None);
                },
                Err(e) => {
                    return Err(e);
                },
            }
        }
    }

    fn close(&mut self) -> (r: Result<(), ExecError>) {
        let r = self.child.close();
        assert(self.child.output().take(self.child.position()) =~= self.child.output());
        r
    }
}

/// Reads every remaining row of an open plan.
pub fn drain<C: ExecutionPlan>(plan: &mut C) -> (rows: Vec<Vec<String>>)
    requires
        old(plan).is_open(),
    ensures
        final(plan).is_open(),
        final(plan).output() == old(plan).output(),
        final(plan).position() == final(plan).output().len(),
        rows_view(rows@) == old(plan).output().skip(old(plan).position()),
{
    let mut rows: Vec<Vec<String>> = Vec::new();
    let ghost out = plan.output();
    let ghost start = plan.position();
    proof {
        plan.lemma_open_bounds();
    }
    loop
        invariant
            plan.is_open(),
            plan.output() == out,
            0 <= start <= plan.position() <= out.len(),
            rows_view(rows@) == out.subrange(start, plan.position()),
        ensures
            plan.is_open(),
            plan.output() == out,
            plan.position() == out.len(),
            rows_view(rows@) == out.subrange(start, out.len() as int),
        decreases out.len() - plan.position(),
    {
        let ghost pos = plan.position();
        match plan.next() {
            Ok(Some(row)) => {
                let ghost before = rows_view(rows@);
                rows.push(row);
                assert(rows_view(rows@) =~= before.push(row_view(row)));
                assert(out.subrange(start, pos + 1) =~= out.subrange(start, pos).push(out[pos]));
            },
            _ => {
                break;
            },
        }
    }
    assert(out.subrange(start, out.len() as int) =~= out.skip(start));
    rows
}

/// Opens a plan and reads all of its rows.
pub fn collect_rows<C: ExecutionPlan>(plan: &mut C) -> (rows: Vec<Vec<String>>)
    ensures
        rows_view(rows@) == old(plan).output(),
        final(plan).output() == old(plan).output(),
        final(plan).is_open(),
{
    let _ = plan.open();
    let rows = drain(plan);
    assert(plan.output().skip(0) =~= plan.output());
    rows
}

/// The window of rows after skipping `offset` and keeping at most `limit`.
pub open spec fn limit_window(rows: Seq<RowView>, limit: Option<usize>, offset: usize) -> Seq<RowView> {
    let rest = if offset <= rows.len() {
        rows.skip(offset as int)
    } else {
        Seq::empty()
    };
    match limit {
        Some(l) => if l <= rest.len() {
            rest.take(l as int)
        } else {
            rest
        },
        None => rest,
    }
}

/// Limit and offset operator (`LIMIT n [OFFSET m]`).
pub struct LimitOffsetExec<C> {
    child: C,
    limit: Option<usize>,
    offset: usize,
    result_rows: Vec<Vec<String>>,
    cursor: usize,
}

impl<C: ExecutionPlan> LimitOffsetExec<C> {
    /// Skips `offset` rows of the child, then keeps at most `limit` of them.
    pub fn new(child: C, limit: Option<usize>, offset: usize) -> (l: LimitOffsetExec<C>)
        ensures
            l.output() == limit_window(child.output(), limit, offset),
    {
        LimitOffsetExec { child, limit, offset, result_rows: Vec::new(), cursor: 0 }
    }
}

impl<C: ExecutionPlan> ExecutionPlan for LimitOffsetExec<C> {
    closed spec fn output(&self) -> Seq<RowView> {
        limit_window(self.child.output(), self.limit, self.offset)
    }

    closed spec fn position(&self) -> int {
        self.cursor as int
    }

    closed spec fn is_open(&self) -> bool {
        &&& rows_view(self.result_rows@) == self.output()
        &&& self.cursor <= self.result_rows@.len()
        &&& self.child.is_open()
    }

    proof fn lemma_open_bounds(&self) {
    }

    fn open(&mut self) -> (r: Result<(), ExecError>) {
        let _ = self.child.open();
        self.result_rows.clear();
        self.cursor = 0;
        let ghost out = self.child.output();
        let mut skipped: usize = 0;
        let mut count: usize = 0;
        loop
            invariant_except_break
                0 <= self.child.position() <= out.len(),
                skipped < self.offset ==> self.child.position() == skipped && count == 0,
                skipped == self.offset ==> self.child.position() == self.offset + count,
                count == self.result_rows@.len(),
                match self.limit {
                    Some(l) => count <= l,
                    None => true,
                },
                rows_view(self.result_rows@) == out.subrange(
                    self.child.position() - count,
                    self.child.position(),
                ),
            invariant
                self.child.is_open(),
                self.child.output() == out,
                out == old(self).child.output(),
                self.limit == old(self).limit,
                self.offset == old(self).offset,
                self.cursor == 0,
                skipped <= self.offset,
            ensures
                self.child.is_open(),
                self.child.output() == out,
                self.cursor == 0,
                rows_view(self.result_rows@) == limit_window(out, self.limit, self.offset),
            decreases out.len() - self.child.position(),
        {
            proof {
                self.child.lemma_open_bounds();
            }
            let ghost pos = self.child.position();
            match self.child.next() {
                Ok(Some(row)) => {
                    if skipped < self.offset {
                        skipped += 1;
                    } else {
                        let full = match self.limit {
                            Some(l) => count >= l,
                            None => false,
                        };
                        if full {
                            proof {
                                let l = self.limit->0;
                                assert(count == l);
                                assert(out.skip(self.offset as int).take(l as int) =~= out.subrange(
                                    self.offset as int,
                                    self.offset + count,
                                ));
                            }
                            break;
                        }
                        let ghost before = rows_view(self.result_rows@);
                        self.result_rows.push(row);
                        count = self.result_rows.len();
                        assert(rows_view(self.result_rows@) =~= before.push(row_view(row)));
                        assert(rows_view(self.result_rows@) =~= out.subrange(
                            self.child.position() - count,
                            self.child.position(),
                        ));
                    }
                },
                _ => {
                    proof {
                        assert(pos >= out.len());
                        if skipped < self.offset {
                            assert(rows_view(self.result_rows@) =~= Seq::<RowView>::empty());
                            assert(limit_window(out, self.limit, self.offset) =~= Seq::<RowView>::empty());
                        } else {
                            assert(out.subrange(self.offset as int, out.len() as int) =~= out.skip(
                                self.offset as int,
                            ));
                        }
                    }
                    break;
                },
            }
        }
        Ok(())
    }

    fn next(&mut self) -> (r: Result<Option<Vec<String>>, ExecError>) {
        if self.cursor < self.result_rows.len() {
            let row = clone_row(&self.result_rows[self.cursor]);
            self.cursor += 1;
            Ok(Some(row))
        } else {
            Ok(None)
        }
    }

    fn close(&mut self) -> (r: Result<(), ExecError>) {
        let _ = self.child.close();
        self.cursor = self.result_rows.len();
        Ok(())
    }
}

/// Aggregate functions: `COUNT(*)`, and `SUM` and `AVG` of the column at an index.
#[derive(Debug, Clone, Copy, PartialEq, Eq, Structural)]
pub enum AggregateFunc {
    Count,
    Sum(usize),
    Avg(usize),
}

/// The distinct cells at `idx` of the rows that have one, in order of first appearance.
pub open spec fn group_keys(rows: Seq<RowView>, idx: int) -> Seq<Seq<char>>
    decreases rows.len(),
{
    if rows.len() == 0 {
        Seq::empty()
    } else {
        let prev = group_keys(rows.drop_last(), idx);
        let l = rows.last();
        if 0 <= idx < l.len() && !prev.contains(l[idx]) {
            prev.push(l[idx])
        } else {
            prev
        }
    }
}

/// A key that no row has at `idx` matches no row.
proof fn lemma_unseen_key_matches_nothing(rows: Seq<RowView>, idx: int, k: Seq<char>)
    requires
        !group_keys(rows, idx).contains(k),
    ensures
        matching(rows, idx, k) == Seq::<RowView>::empty(),
    decreases rows.len(),
{
    if rows.len() > 0 {
        let prev = group_keys(rows.drop_last(), idx);
        let l = rows.last();
        if prev.contains(k) {
            if 0 <= idx < l.len() && !prev.contains(l[idx]) {
                let j = choose|j: int| 0 <= j < prev.len() && prev[j] == k;
                assert(prev.push(l[idx])[j] == k);
            }
        } else {
            lemma_unseen_key_matches_nothing(rows.drop_last(), idx, k);
        }
        if cell_matches(l, idx, k) {
            assert(group_keys(rows, idx) == prev.push(l[idx]));
            assert(group_keys(rows, idx)[prev.len() as int] == k);
        }
    }
}

fn same_text(a: &String, b: &String) -> (r: bool)
    ensures
        r == (a@ == b@),
{
    crate::text::chars_eq(chars_of(a.as_str()).as_slice(), chars_of(b.as_str()).as_slice())
}

/// The rows grouped by their cell at `group_col`: one group per distinct cell, in order of
/// first appearance, holding its rows in order; rows without that cell belong to no group.
pub fn group_rows(rows: &Vec<Vec<String>>, group_col: usize) -> (groups: Vec<(String, Vec<Vec<String>>)>)
    ensures
        groups@.len() == group_keys(rows_view(rows@), group_col as int).len(),
        forall|g: int| 0 <= g < groups@.len() ==> (#[trigger] groups@[g]).0@ == group_keys(rows_view(rows@), group_col as int)[g]
            && rows_view(groups@[g].1@) == matching(rows_view(rows@), group_col as int, groups@[g].0@),
{
    let ghost all = rows_view(rows@);
    let ghost idx = group_col as int;
    let mut groups: Vec<(String, Vec<Vec<String>>)> = Vec::new();
    let mut i: usize = 0;
    assert(all.take(0) =~= Seq::<RowView>::empty());
    assert(group_keys(all.take(0), idx) =~= Seq::<Seq<char>>::empty());
    while i < rows.len()
        invariant
            all == rows_view(rows@),
            idx == group_col as int,
            i <= rows@.len(),
            groups@.len() == group_keys(all.take(i as int), idx).len(),
            forall|g: int| 0 <= g < groups@.len() ==> (#[trigger] groups@[g]).0@ == group_keys(all.take(i as int), idx)[g]
                && rows_view(groups@[g].1@) == matching(all.take(i as int), idx, groups@[g].0@),
        decreases rows@.len() - i,
    {
        let ghost before = all.take(i as int);
        let ghost after = all.take(i + 1);
        let ghost keys0 = group_keys(before, idx);
        proof {
            assert(after.drop_last() =~= before);
            assert(after.last() == all[i as int]);
            assert(all[i as int] == row_view(rows@[i as int]));
        }
        let row = &rows[i];
        if group_col < row.len() {
            let key = &row[group_col];
            let ghost k = key@;
            assert(all[i as int][idx] == k);
            let mut g: usize = 0;
            while g < groups.len() && !same_text(&groups[g].0, key)
                invariant
                    g <= groups@.len(),
                    k == key@,
                    forall|h: int| 0 <= h < g ==> (#[trigger] groups@[h]).0@ != k,
                decreases groups@.len() - g,
            {
                g += 1;
            }
            let copy = clone_row(row);
            let ghost old_groups = groups@;
            if g < groups.len() {
                proof {
                    assert(keys0[g as int] == k);
                    assert(keys0.contains(k));
                    assert(group_keys(after, idx) == keys0);
                }
                let (k0, mut members) = groups.remove(g);
                let ghost m0 = rows_view(members@);
                members.push(copy);
                assert(rows_view(members@) =~= m0.push(row_view(copy)));
                groups.insert(g, (k0, members));
                assert forall|h: int| 0 <= h < groups@.len() implies (#[trigger] groups@[h]).0@ == group_keys(after, idx)[h]
                    && rows_view(groups@[h].1@) == matching(after, idx, groups@[h].0@) by {
                    lemma_matching_step(all, i as int, idx, groups@[h].0@);
                    if h != g {
                        assert(groups@[h] == old_groups[h]);
                        if old_groups[h].0@ == k {
                            lemma_group_keys_distinct(before, idx, h, g as int);
                        }
                    }
                }
            } else {
                proof {
                    assert(!keys0.contains(k)) by {
                        if keys0.contains(k) {
                            let j = choose|j: int| 0 <= j < keys0.len() && keys0[j] == k;
                            assert(old_groups[j].0@ != k);
                        }
                    }
                    assert(group_keys(after, idx) == keys0.push(k));
                    lemma_unseen_key_matches_nothing(before, idx, k);
                }
                let mut members: Vec<Vec<String>> = Vec::new();
                members.push(copy);
                assert(rows_view(members@) =~= seq![row_view(copy)]);
                groups.push((key.clone(), members));
                assert forall|h: int| 0 <= h < groups@.len() implies (#[trigger] groups@[h]).0@ == group_keys(after, idx)[h]
                    && rows_view(groups@[h].1@) == matching(after, idx, groups@[h].0@) by {
                    lemma_matching_step(all, i as int, idx, groups@[h].0@);
                    if h < old_groups.len() {
                        assert(groups@[h] == old_groups[h]);
                    } else {
                        assert(matching(before, idx, k) =~= Seq::<RowView>::empty());
                        assert(seq![row_view(copy)] =~= Seq::<RowView>::empty().push(all[i as int]));
                    }
                }
            }
        } else {
            proof {
                assert(group_keys(after, idx) == keys0);
                assert forall|h: int| 0 <= h < groups@.len() implies (#[trigger] groups@[h]).0@ == group_keys(after, idx)[h]
                    && rows_view(groups@[h].1@) == matching(after, idx, groups@[h].0@) by {
                    lemma_matching_step(all, i as int, idx, groups@[h].0@);
                }
            }
        }
        i += 1;
    }
    assert(all.take(i as int) =~= all);
    groups
}

/// The group keys hold each key once.
proof fn lemma_group_keys_distinct(rows: Seq<RowView>, idx: int, a: int, b: int)
    requires
        0 <= a < group_keys(rows, idx).len(),
        0 <= b < group_keys(rows, idx).len(),
        a != b,
    ensures
        group_keys(rows, idx)[a] != group_keys(rows, idx)[b],
    decreases rows.len(),
{
    if rows.len() > 0 {
        let prev = group_keys(rows.drop_last(), idx);
        let l = rows.last();
        if 0 <= idx < l.len() && !prev.contains(l[idx]) {
            if a < prev.len() && b < prev.len() {
                lemma_group_keys_distinct(rows.drop_last(), idx, a, b);
            } else if a == prev.len() {
                assert(prev[b] != l[idx]);
            } else {
                assert(prev[a] != l[idx]);
            }
        } else {
            lemma_group_keys_distinct(rows.drop_last(), idx, a, b);
        }
    }
}

/// Join type for relational joins.
#[derive(Debug, Clone, Copy, PartialEq, Eq, Structural)]
pub enum JoinType {
    Inner,
    Left,
}

/// `n` cells holding `NULL`.
pub open spec fn null_cells(n: nat) -> RowView {
    Seq::new(n, |i: int| "NULL"@)
}

/// Each of `rights` appended to `left`.
pub open spec fn joined_with(left: RowView, rights: Seq<RowView>) -> Seq<RowView> {
    rights.map_values(|r: RowView| left + r)
}

/// The joined rows for the left rows in order: a left row whose key cell exists is joined with
/// every right row whose key cell equals it, in right order; with a left join, a left row
/// without a match is padded with `NULL` cells. Left rows without the key cell are dropped.
pub open spec fn join_rows(
    lefts: Seq<RowView>,
    rights: Seq<RowView>,
    lk: int,
    rk: int,
    join_type: JoinType,
    right_num_cols: nat,
) -> Seq<RowView>
    decreases lefts.len(),
{
    if lefts.len() == 0 {
        Seq::empty()
    } else {
        let prev = join_rows(lefts.drop_last(), rights, lk, rk, join_type, right_num_cols);
        let l = lefts.last();
        if 0 <= lk < l.len() {
            let ms = matching(rights, rk, l[lk]);
            if ms.len() > 0 {
                prev + joined_with(l, ms)
            } else if join_type == JoinType::Left {
                prev.push(l + null_cells(right_num_cols))
            } else {
                prev
            }
        } else {
            prev
        }
    }
}

/// The right rows whose key cell equals `key`, in order.
fn right_matches(rights: &Vec<Vec<String>>, rk: usize, key: &String) -> (r: Vec<Vec<String>>)
    ensures
        rows_view(r@) == matching(rows_view(rights@), rk as int, key@),
{
    let ghost all = rows_view(rights@);
    let mut r: Vec<Vec<String>> = Vec::new();
    let mut i: usize = 0;
    assert(all.take(0) =~= Seq::<RowView>::empty());
    while i < rights.len()
        invariant
            all == rows_view(rights@),
            i <= rights@.len(),
            rows_view(r@) == matching(all.take(i as int), rk as int, key@),
        decreases rights@.len() - i,
    {
        proof {
            lemma_matching_step(all, i as int, rk as int, key@);
        }
        let row = &rights[i];
        if rk < row.len() && row[rk] == *key {
            let ghost before = rows_view(r@);
            let c = clone_row(row);
            r.push(c);
            assert(rows_view(r@) =~= before.push(row_view(c)));
        }
        i += 1;
    }
    assert(all.take(i as int) =~= all);
    r
}

/// `left` followed by `right`.
fn concat_row(left: &Vec<String>, right: &Vec<String>) -> (r: Vec<String>)
    ensures
        row_view(r) == row_view(*left) + row_view(*right),
{
    let mut r = clone_row(left);
    let mut i: usize = 0;
    let ghost base = row_view(r);
    while i < right.len()
        invariant
            i <= right@.len(),
            row_view(r) == base + row_view(*right).take(i as int),
        decreases right@.len() - i,
    {
        let ghost before = row_view(r);
        let s = right[i].clone();
        r.push(s);
        assert(row_view(r) =~= before.push(s@));
        assert(row_view(*right).take(i + 1) =~= row_view(*right).take(i as int).push(right@[i as int]@));
        i += 1;
    }
    assert(row_view(*right).take(i as int) =~= row_view(*right));
    r
}

/// `n` cells holding `NULL`.
fn null_row(n: usize) -> (r: Vec<String>)
    ensures
        row_view(r) == null_cells(n as nat),
{
    let mut r: Vec<String> = Vec::new();
    let mut i: usize = 0;
    while i < n
        invariant
            i <= n,
            row_view(r) == null_cells(i as nat),
        decreases n - i,
    {
        let ghost before = row_view(r);
        let s = string_of(chars_of("NULL").as_slice());
        r.push(s);
        assert(row_view(r) =~= before.push(s@));
        i += 1;
        assert(row_view(r) =~= null_cells(i as nat));
    }
    r
}

/// Hash join operator (`INNER JOIN`, `LEFT JOIN`).
pub struct HashJoinExec<L, R> {
    left: L,
    right: R,
    left_key_idx: usize,
    right_key_idx: usize,
    join_type: JoinType,
    right_num_cols: usize,
    result_rows: Vec<Vec<String>>,
    cursor: usize,
}

impl<L: ExecutionPlan, R: ExecutionPlan> HashJoinExec<L, R> {
    /// Joins the left rows with the right rows on equal key cells.
    pub fn new(
        left: L,
        right: R,
        left_key_idx: usize,
        right_key_idx: usize,
        join_type: JoinType,
        right_num_cols: usize,
    ) -> (j: HashJoinExec<L, R>)
        ensures
            j.output() == join_rows(
                left.output(),
                right.output(),
                left_key_idx as int,
                right_key_idx as int,
                join_type,
                right_num_cols as nat,
            ),
    {
        HashJoinExec {
            left,
            right,
            left_key_idx,
            right_key_idx,
            join_type,
            right_num_cols,
            result_rows: Vec::new(),
            cursor: 0,
        }
    }
}

impl<L: ExecutionPlan, R: ExecutionPlan> ExecutionPlan for HashJoinExec<L, R> {
    closed spec fn output(&self) -> Seq<RowView> {
        join_rows(
            self.left.output(),
            self.right.output(),
            self.left_key_idx as int,
            self.right_key_idx as int,
            self.join_type,
            self.right_num_cols as nat,
        )
    }

    closed spec fn position(&self) -> int {
        self.cursor as int
    }

    closed spec fn is_open(&self) -> bool {
        &&& rows_view(self.result_rows@) == self.output()
        &&& self.cursor <= self.result_rows@.len()
        &&& self.left.is_open()
        &&& self.right.is_open()
    }

    proof fn lemma_open_bounds(&self) {
    }

    fn open(&mut self) -> (r: Result<(), ExecError>) {
        let _ = self.left.open();
        let _ = self.right.open();
        self.result_rows.clear();
        self.cursor = 0;
        let rights = drain(&mut self.right);
        let lefts = drain(&mut self.left);
        let ghost lv = rows_view(lefts@);
        let ghost rv = rows_view(rights@);
        assert(lv =~= self.left.output());
        assert(rv =~= self.right.output());
        let lk = self.left_key_idx;
        let rk = self.right_key_idx;
        let jt = self.join_type;
        let ncols = self.right_num_cols;
        let mut result: Vec<Vec<String>> = Vec::new();
        let mut i: usize = 0;
        assert(lv.take(0) =~= Seq::<RowView>::empty());
        while i < lefts.len()
            invariant
                i <= lefts@.len(),
                lv == rows_view(lefts@),
                rv == rows_view(rights@),
                lk == self.left_key_idx,
                rk == self.right_key_idx,
                self.left_key_idx == old(self).left_key_idx,
                self.right_key_idx == old(self).right_key_idx,
                jt == old(self).join_type,
                ncols == old(self).right_num_cols,
                self.join_type == old(self).join_type,
                self.right_num_cols == old(self).right_num_cols,
                self.left.output() == lv,
                self.right.output() == rv,
                self.left.output() == old(self).left.output(),
                self.right.output() == old(self).right.output(),
                self.left.is_open(),
                self.right.is_open(),
                self.cursor == 0,
                rows_view(result@) == join_rows(
                    lv.take(i as int),
                    rv,
                    lk as int,
                    rk as int,
                        jt,
                    ncols as nat,
                ),
            decreases lefts@.len() - i,
        {
            assert(lv.take(i + 1).drop_last() =~= lv.take(i as int));
            assert(lv.take(i + 1).last() == row_view(lefts@[i as int]));
            let left_row = &lefts[i];
            if lk < left_row.len() {
                let ms = right_matches(&rights, rk, &left_row[lk]);
                if ms.len() > 0 {
                    let mut j: usize = 0;
                    let ghost base = rows_view(result@);
                    let ghost msv = rows_view(ms@);
                    while j < ms.len()
                        invariant
                            j <= ms@.len(),
                            msv == rows_view(ms@),
                            rows_view(result@) == base + joined_with(
                                row_view(*left_row),
                                msv.take(j as int),
                            ),
                        decreases ms@.len() - j,
                    {
                        let joined = concat_row(left_row, &ms[j]);
                        let ghost before = rows_view(result@);
                        result.push(joined);
                        assert(rows_view(result@) =~= before.push(row_view(joined)));
                        assert(joined_with(row_view(*left_row), msv.take(j + 1)) =~= joined_with(
                            row_view(*left_row),
                            msv.take(j as int),
                        ).push(row_view(*left_row) + msv[j as int]));
                        j += 1;
                    }
                    assert(msv.take(j as int) =~= msv);
                } else if jt == JoinType::Left {
                    let nulls = null_row(ncols);
                    let joined = concat_row(left_row, &nulls);
                    let ghost before = rows_view(result@);
                    result.push(joined);
                    assert(rows_view(result@) =~= before.push(row_view(joined)));
                }
            }
            i += 1;
        }
        assert(lv.take(i as int) =~= lv);
        self.result_rows = result;
        Ok(())
    }

    fn next(&mut self) -> (r: Result<Option<Vec<String>>, ExecError>) {
        if self.cursor < self.result_rows.len() {
            let row = clone_row(&self.result_rows[self.cursor]);
            self.cursor += 1;
            Ok(Some(row))
        } else {
            Ok(None)
        }
    }

    fn close(&mut self) -> (r: Result<(), ExecError>) {
        let _ = self.left.close();
        let _ = self.right.close();
        self.cursor = self.result_rows.len();
        Ok(())
    }
}

/// The text of `COUNT(*)` over `rows`: their number in decimal.
pub fn count_text(rows: &[Vec<String>]) -> (r: String)
    ensures
        r@ == crate::network::pgwire::decimal(rows@.len() as nat),
{
    string_of(crate::network::pgwire::decimal_exec(rows.len()).as_slice())
}

} // verus!
