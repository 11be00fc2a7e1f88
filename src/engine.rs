//! The execution engine: a parsed query run against one in-memory table,
//! filter, then sort, then limit, then projection.
use vstd::prelude::*;

use crate::eval::{
    check_condition, copy_cell, holds, is_nan, number_less, order_key, Cell, Number, INFINITY_BITS,
};
use crate::query::{
    string_views, Operator, OperatorModel, Query, QueryError, QueryErrorModel, QueryModel, Stage,
};
use crate::text::{chars_of, less_text, text_lt};

verus! {

broadcast use vstd::seq_lib::group_seq_properties;

/// A table as a loader hands it over: the header's column names, and the
/// rows, each a sequence of cells in the header's order.
#[derive(Debug)]
pub struct Table {
    pub headers: Vec<String>,
    pub rows: Vec<Vec<Cell>>,
}

pub open spec fn row_views(rows: Seq<Vec<Cell>>) -> Seq<Seq<Cell>> {
    rows.map_values(|r: Vec<Cell>| r@)
}

/// The views of output rows of strings.
pub open spec fn output_views(rows: Seq<Vec<String>>) -> Seq<Seq<Seq<char>>> {
    rows.map_values(|r: Vec<String>| string_views(r@))
}

/// The position of column `name` in `headers`: the last one, where a name
/// occurs twice.
pub open spec fn column_index(headers: Seq<Seq<char>>, name: Seq<char>) -> Option<int>
    decreases headers.len(),
{
    if headers.len() == 0 {
        None
    } else if headers.last() == name {
        Some(headers.len() - 1)
    } else {
        column_index(headers.drop_last(), name)
    }
}

pub proof fn lemma_column_index(headers: Seq<Seq<char>>, name: Seq<char>)
    ensures
        column_index(headers, name) matches Some(i) ==> 0 <= i < headers.len() && headers[i]
            == name,
        column_index(headers, name) is None ==> forall|k: int|
            0 <= k < headers.len() ==> headers[k] != name,
    decreases headers.len(),
{
    if headers.len() > 0 && headers.last() != name {
        lemma_column_index(headers.drop_last(), name);
        if column_index(headers, name) is None {
            assert forall|k: int| 0 <= k < headers.len() implies headers[k] != name by {
                if k < headers.len() - 1 {
                    assert(headers.drop_last()[k] == headers[k]);
                }
            }
        }
    }
}

/// Looks up a column by name in the header.
pub fn find_column(headers: &Vec<String>, name: &String) -> (r: Option<usize>)
    ensures
        match r {
            Some(i) => column_index(string_views(headers@), name@) == Some(i as int),
            None => column_index(string_views(headers@), name@) is None,
        },
{
    let ghost hv = string_views(headers@);
    let mut j: usize = headers.len();
    assert(hv.take(j as int) == hv);
    while j > 0
        invariant
            j <= headers@.len(),
            hv == string_views(headers@),
            column_index(hv, name@) == column_index(hv.take(j as int), name@),
        decreases j,
    {
        let ghost t = hv.take(j as int);
        assert(t.last() == headers@[j - 1]@);
        assert(t.drop_last() == hv.take(j - 1));
        if headers[j - 1] == *name {
            return Some(j - 1);
        }
        j -= 1;
    }
    None
}

/// The text of cell `i` of a row; empty where the row is too short.
pub open spec fn cell_text(row: Seq<Cell>, i: int) -> Seq<char> {
    if 0 <= i < row.len() {
        row[i].text@
    } else {
        Seq::empty()
    }
}

/// The number of cell `i` of a row; none where the row is too short.
pub open spec fn cell_number(row: Seq<Cell>, i: int) -> Option<Number> {
    if 0 <= i < row.len() {
        row[i].number
    } else {
        None
    }
}

/// Whether a row's cell `i` meets a condition; a row without that cell does
/// not.
pub open spec fn row_matches(
    row: Seq<Cell>,
    i: int,
    op: OperatorModel,
    lit: Seq<char>,
    ln: Option<Number>,
) -> bool {
    0 <= i < row.len() && holds(row[i].text@, row[i].number, op, lit, ln)
}

pub open spec fn matcher(i: int, op: OperatorModel, lit: Seq<char>, ln: Option<Number>) -> spec_fn(
    Seq<Cell>,
) -> bool {
    |row: Seq<Cell>| row_matches(row, i, op, lit, ln)
}

pub fn copy_row(row: &Vec<Cell>) -> (r: Vec<Cell>)
    ensures
        r@ == row@,
{
    let mut out: Vec<Cell> = Vec::new();
    let mut k: usize = 0;
    while k < row.len()
        invariant
            k <= row@.len(),
            out@ == row@.take(k as int),
        decreases row@.len() - k,
    {
        out.push(copy_cell(&row[k]));
        k += 1;
        assert(out@ =~= row@.take(k as int));
    }
    assert(row@.take(k as int) =~= row@);
    out
}

/// The rows whose cell `index` meets the condition, in their order.
pub fn apply_filter(rows: &Vec<Vec<Cell>>, index: usize, op: &Operator, lit: &Cell) -> (r: Vec<
    Vec<Cell>,
>)
    ensures
        row_views(r@) == row_views(rows@).filter(
            matcher(index as int, op@, lit.text@, lit.number),
        ),
{
    let ghost keep = matcher(index as int, op@, lit.text@, lit.number);
    let ghost all = row_views(rows@);
    let mut out: Vec<Vec<Cell>> = Vec::new();
    let mut k: usize = 0;
    proof {
        reveal(Seq::filter);
        assert(all.take(0) =~= Seq::<Seq<Cell>>::empty());
        assert(row_views(out@) =~= Seq::<Seq<Cell>>::empty());
    }
    while k < rows.len()
        invariant
            k <= rows@.len(),
            all == row_views(rows@),
            keep == matcher(index as int, op@, lit.text@, lit.number),
            row_views(out@) == all.take(k as int).filter(keep),
        decreases rows@.len() - k,
    {
        let row = &rows[k];
        assert(all.take(k + 1) == all.take(k as int).push(row@));
        proof {
            all.take(k as int).lemma_filter_push(row@, keep);
        }
        let hit = index < row.len() && check_condition(&row[index], op, lit);
        if hit {
            let ghost before = out@;
            out.push(copy_row(row));
            assert(row_views(out@) =~= row_views(before).push(row@));
        }
        k += 1;
    }
    assert(all.take(k as int) =~= all);
    out
}

/// The first `n` rows, or all of them where there are fewer.
pub open spec fn limited<T>(rows: Seq<T>, n: usize) -> Seq<T> {
    if n < rows.len() {
        rows.take(n as int)
    } else {
        rows
    }
}

/// The first column of `cols` that `headers` does not have, if any.
pub open spec fn missing_column(headers: Seq<Seq<char>>, cols: Seq<Seq<char>>) -> Option<Seq<char>>
    decreases cols.len(),
{
    if cols.len() == 0 {
        None
    } else if column_index(headers, cols[0]) is None {
        Some(cols[0])
    } else {
        missing_column(headers, cols.skip(1))
    }
}

/// A row cut down to the cells of `cols`, in that order.
pub open spec fn project_row(headers: Seq<Seq<char>>, cols: Seq<Seq<char>>, row: Seq<Cell>) -> Seq<
    Seq<char>,
> {
    cols.map_values(|c: Seq<char>| cell_text(row, column_index(headers, c)->0))
}

/// The output of a projection: `cols` as the header row, then each row cut
/// down to those columns.
pub open spec fn projected(headers: Seq<Seq<char>>, cols: Seq<Seq<char>>, rows: Seq<Seq<Cell>>) -> Seq<
    Seq<Seq<char>>,
> {
    seq![cols] + rows.map_values(|r: Seq<Cell>| project_row(headers, cols, r))
}

/// The output without a projection: the header row, then each row's texts.
pub open spec fn unprojected(headers: Seq<Seq<char>>, rows: Seq<Seq<Cell>>) -> Seq<Seq<Seq<char>>> {
    seq![headers] + rows.map_values(|r: Seq<Cell>| r.map_values(|c: Cell| c.text@))
}


fn copy_strings(v: &Vec<String>) -> (r: Vec<String>)
    ensures
        r@ == v@,
{
    let mut out: Vec<String> = Vec::new();
    let mut k: usize = 0;
    while k < v.len()
        invariant
            k <= v@.len(),
            out@ == v@.take(k as int),
        decreases v@.len() - k,
    {
        out.push(v[k].clone());
        k += 1;
        assert(out@ =~= v@.take(k as int));
    }
    assert(v@.take(k as int) =~= v@);
    out
}

fn text_at(row: &Vec<Cell>, i: usize) -> (r: String)
    ensures
        r@ == cell_text(row@, i as int),
{
    if i < row.len() {
        row[i].text.clone()
    } else {
        String::new()
    }
}

/// The header row `cols`, then each row cut down to those columns; an error
/// names the first column that the header lacks.
pub fn select_columns(rows: &Vec<Vec<Cell>>, cols: &Vec<String>, headers: &Vec<String>) -> (r:
    Result<Vec<Vec<String>>, QueryError>)
    ensures
        match r {
            Ok(v) => missing_column(string_views(headers@), string_views(cols@)) is None
                && output_views(v@) == projected(
                string_views(headers@),
                string_views(cols@),
                row_views(rows@),
            ),
            Err(e) => missing_column(string_views(headers@), string_views(cols@)) matches Some(
                c,
            ) && e@ == (QueryErrorModel::ColumnNotFound { column: c, stage: Stage::Projection }),
        },
{
    let ghost hv = string_views(headers@);
    let ghost cv = string_views(cols@);
    let mut idx: Vec<usize> = Vec::new();
    let mut j: usize = 0;
    assert(cv.skip(0) == cv);
    while j < cols.len()
        invariant
            j <= cols@.len(),
            hv == string_views(headers@),
            cv == string_views(cols@),
            idx@.len() == j,
            missing_column(hv, cv) == missing_column(hv, cv.skip(j as int)),
            forall|k: int| 0 <= k < j ==> column_index(hv, #[trigger] cv[k]) == Some(idx@[k] as int),
        decreases cols@.len() - j,
    {
        assert(cv.skip(j as int)[0] == cv[j as int]);
        assert(cv.skip(j as int).skip(1) == cv.skip(j + 1));
        match find_column(headers, &cols[j]) {
            Some(i) => {
                idx.push(i);
            },
            None => {
                return Err(QueryError::ColumnNotFound { column: cols[j].clone(), stage: Stage::Projection });
            },
        }
        j += 1;
    }
    assert(cv.skip(j as int).len() == 0);
    let ghost rv = row_views(rows@);
    let ghost want = projected(hv, cv, rv);
    let mut out: Vec<Vec<String>> = Vec::new();
    out.push(copy_strings(cols));
    let mut k: usize = 0;
    assert(output_views(out@) =~= want.take(1));
    while k < rows.len()
        invariant
            k <= rows@.len(),
            rv == row_views(rows@),
            hv == string_views(headers@),
            cv == string_views(cols@),
            idx@.len() == cv.len(),
            forall|m: int| 0 <= m < cv.len() ==> column_index(hv, #[trigger] cv[m]) == Some(idx@[m] as int),
            want == projected(hv, cv, rv),
            output_views(out@) == want.take(k + 1),
        decreases rows@.len() - k,
    {
        let row = &rows[k];
        let mut cells: Vec<String> = Vec::new();
        let mut m: usize = 0;
        let ghost target = project_row(hv, cv, row@);
        while m < idx.len()
            invariant
                m <= idx@.len(),
                idx@.len() == cv.len(),
                forall|q: int| 0 <= q < cv.len() ==> column_index(hv, #[trigger] cv[q]) == Some(idx@[q] as int),
                target == project_row(hv, cv, row@),
                string_views(cells@) == target.take(m as int),
            decreases idx@.len() - m,
        {
            assert(column_index(hv, cv[m as int]) == Some(idx@[m as int] as int));
            let ghost before = cells@;
            assert(target[m as int] == cell_text(row@, idx@[m as int] as int));
            let t = text_at(row, idx[m]);
            cells.push(t);
            assert(string_views(cells@) =~= string_views(before).push(t@));
            m += 1;
            assert(string_views(cells@) =~= target.take(m as int));
        }
        assert(target.take(m as int) =~= target);
        let ghost before = out@;
        let ghost cv2 = string_views(cells@);
        out.push(cells);
        assert(output_views(out@) =~= output_views(before).push(cv2));
        assert(rv[k as int] == row@);
        assert(want[k + 1] == target);
        assert(output_views(out@) =~= want.take(k + 2));
        k += 1;
    }
    assert(want.take(k + 1) =~= want);
    Ok(out)
}


/// Whether one cell sorts before another: as numbers where both are numbers
/// other than NaN, else as texts.
pub open spec fn sorts_before(at: Seq<char>, an: Option<Number>, bt: Seq<char>, bn: Option<Number>) -> bool {
    match (an, bn) {
        (Some(x), Some(y)) => if !is_nan(x) && !is_nan(y) {
            order_key(x) < order_key(y)
        } else {
            text_lt(at, bt)
        },
        _ => text_lt(at, bt),
    }
}

/// Whether row `a` goes strictly before row `b` when sorting on cell `i`; a
/// descending sort turns the comparison round.
pub open spec fn row_before(a: Seq<Cell>, b: Seq<Cell>, i: int, desc: bool) -> bool {
    if desc {
        sorts_before(cell_text(b, i), cell_number(b, i), cell_text(a, i), cell_number(a, i))
    } else {
        sorts_before(cell_text(a, i), cell_number(a, i), cell_text(b, i), cell_number(b, i))
    }
}

/// Where `x`, which came after every row of `s`, goes in `s`: after the last
/// row that it does not go strictly before.
pub open spec fn insert_pos(s: Seq<Seq<Cell>>, x: Seq<Cell>, i: int, desc: bool) -> int
    decreases s.len(),
{
    if s.len() == 0 {
        0
    } else if !row_before(x, s.last(), i, desc) {
        s.len() as int
    } else {
        insert_pos(s.drop_last(), x, i, desc)
    }
}

/// The rows stably sorted on cell `i`: each row in turn is put into the
/// sorted rows before it, after those that it does not go strictly before,
/// so that rows that compare equal keep their order.
pub open spec fn sorted_rows(rows: Seq<Seq<Cell>>, i: int, desc: bool) -> Seq<Seq<Cell>>
    decreases rows.len(),
{
    if rows.len() == 0 {
        rows
    } else {
        let s = sorted_rows(rows.drop_last(), i, desc);
        s.insert(insert_pos(s, rows.last(), i, desc), rows.last())
    }
}

fn cell_parts(row: &Vec<Cell>, i: usize) -> (r: (Vec<char>, Option<Number>))
    ensures
        r.0@ == cell_text(row@, i as int),
        r.1 == cell_number(row@, i as int),
{
    if i < row.len() {
        (chars_of(row[i].text.as_str()), row[i].number)
    } else {
        (Vec::new(), None)
    }
}

fn before_exec(at: &Vec<char>, an: Option<Number>, bt: &Vec<char>, bn: Option<Number>) -> (r: bool)
    ensures
        r == sorts_before(at@, an, bt@, bn),
{
    match (an, bn) {
        (Some(x), Some(y)) => {
            if x.magnitude <= INFINITY_BITS && y.magnitude <= INFINITY_BITS {
                number_less(x, y)
            } else {
                less_text(at, bt)
            }
        },
        _ => less_text(at, bt),
    }
}

fn row_before_exec(a: &Vec<Cell>, b: &Vec<Cell>, i: usize, desc: bool) -> (r: bool)
    ensures
        r == row_before(a@, b@, i as int, desc),
{
    let (at, an) = cell_parts(a, i);
    let (bt, bn) = cell_parts(b, i);
    if desc {
        before_exec(&bt, bn, &at, an)
    } else {
        before_exec(&at, an, &bt, bn)
    }
}

/// The rows stably sorted on cell `index`, ascending or descending.
pub fn apply_sort(rows: &Vec<Vec<Cell>>, index: usize, desc: bool) -> (r: Vec<Vec<Cell>>)
    ensures
        row_views(r@) == sorted_rows(row_views(rows@), index as int, desc),
{
    let ghost rv = row_views(rows@);
    let mut out: Vec<Vec<Cell>> = Vec::new();
    let mut k: usize = 0;
    assert(rv.take(0) =~= Seq::<Seq<Cell>>::empty());
    assert(row_views(out@) =~= Seq::<Seq<Cell>>::empty());
    while k < rows.len()
        invariant
            k <= rows@.len(),
            rv == row_views(rows@),
            row_views(out@) == sorted_rows(rv.take(k as int), index as int, desc),
        decreases rows@.len() - k,
    {
        let row = &rows[k];
        let ghost ov = row_views(out@);
        let ghost x = row@;
        assert(rv.take(k + 1).drop_last() =~= rv.take(k as int));
        assert(rv.take(k + 1).last() == x);
        let mut j: usize = out.len();
        assert(ov.take(j as int) =~= ov);
        while j > 0 && row_before_exec(row, &out[j - 1], index, desc)
            invariant
                j <= out@.len(),
                ov == row_views(out@),
                x == row@,
                insert_pos(ov, x, index as int, desc) == insert_pos(ov.take(j as int), x, index as int, desc),
            decreases j,
        {
            assert(ov.take(j as int).last() == out@[j - 1]@);
            assert(ov.take(j as int).drop_last() =~= ov.take(j - 1));
            j -= 1;
        }
        proof {
            if j > 0 {
                assert(ov.take(j as int).last() == out@[j - 1]@);
            }
        }
        assert(insert_pos(ov, x, index as int, desc) == j);
        out.insert(j, copy_row(row));
        assert(row_views(out@) =~= ov.insert(j as int, x));
        k += 1;
    }
    assert(rv.take(k as int) =~= rv);
    out
}


/// The rows after the filter stage, or the error of its lookup.
pub open spec fn filter_stage(
    q: QueryModel,
    ln: Option<Number>,
    headers: Seq<Seq<char>>,
    rows: Seq<Seq<Cell>>,
) -> Result<Seq<Seq<Cell>>, QueryErrorModel> {
    match q.filter {
        None => Ok(rows),
        Some(f) => match column_index(headers, f.column) {
            None => Err(QueryErrorModel::ColumnNotFound { column: f.column, stage: Stage::Filter }),
            Some(i) => Ok(rows.filter(matcher(i, f.operator, f.value, ln))),
        },
    }
}

/// The rows after the sort stage, or the error of its lookup.
pub open spec fn sort_stage(q: QueryModel, headers: Seq<Seq<char>>, rows: Seq<Seq<Cell>>) -> Result<
    Seq<Seq<Cell>>,
    QueryErrorModel,
> {
    match q.sort_column {
        None => Ok(rows),
        Some(c) => match column_index(headers, c) {
            None => Err(QueryErrorModel::ColumnNotFound { column: c, stage: Stage::Sort }),
            Some(i) => Ok(sorted_rows(rows, i, q.sort_desc)),
        },
    }
}

/// The rows after the limit stage.
pub open spec fn limit_stage(q: QueryModel, rows: Seq<Seq<Cell>>) -> Seq<Seq<Cell>> {
    match q.limit {
        None => rows,
        Some(n) => limited(rows, n),
    }
}

/// The output rows, header row first, or the error of the projection's
/// lookup.
pub open spec fn output_stage(q: QueryModel, headers: Seq<Seq<char>>, rows: Seq<Seq<Cell>>) -> Result<
    Seq<Seq<Seq<char>>>,
    QueryErrorModel,
> {
    match q.columns {
        None => Ok(unprojected(headers, rows)),
        Some(cols) => match missing_column(headers, cols) {
            Some(c) => Err(QueryErrorModel::ColumnNotFound { column: c, stage: Stage::Projection }),
            None => Ok(projected(headers, cols, rows)),
        },
    }
}

/// What running query `q` on a table gives: filter, sort, limit and
/// projection in that order, the first error ending it. `ln` is the filter's
/// literal read as a number, if it reads as one.
pub open spec fn run_query(
    q: QueryModel,
    ln: Option<Number>,
    headers: Seq<Seq<char>>,
    rows: Seq<Seq<Cell>>,
) -> Result<Seq<Seq<Seq<char>>>, QueryErrorModel> {
    match filter_stage(q, ln, headers, rows) {
        Err(e) => Err(e),
        Ok(r1) => match sort_stage(q, headers, r1) {
            Err(e) => Err(e),
            Ok(r2) => output_stage(q, headers, limit_stage(q, r2)),
        },
    }
}

fn texts_of(row: &Vec<Cell>) -> (r: Vec<String>)
    ensures
        string_views(r@) == row@.map_values(|c: Cell| c.text@),
{
    let mut out: Vec<String> = Vec::new();
    let mut k: usize = 0;
    while k < row.len()
        invariant
            k <= row@.len(),
            string_views(out@) == row@.take(k as int).map_values(|c: Cell| c.text@),
        decreases row@.len() - k,
    {
        let ghost before = out@;
        let t = row[k].text.clone();
        out.push(t);
        assert(string_views(out@) =~= string_views(before).push(row@[k as int].text@));
        k += 1;
        assert(string_views(out@) =~= row@.take(k as int).map_values(|c: Cell| c.text@));
    }
    assert(row@.take(k as int) =~= row@);
    out
}

fn unprojected_rows(headers: &Vec<String>, rows: &Vec<Vec<Cell>>) -> (r: Vec<Vec<String>>)
    ensures
        output_views(r@) == unprojected(string_views(headers@), row_views(rows@)),
{
    let ghost want = unprojected(string_views(headers@), row_views(rows@));
    let mut out: Vec<Vec<String>> = Vec::new();
    out.push(copy_strings(headers));
    assert(output_views(out@) =~= want.take(1));
    let mut k: usize = 0;
    while k < rows.len()
        invariant
            k <= rows@.len(),
            want == unprojected(string_views(headers@), row_views(rows@)),
            output_views(out@) == want.take(k + 1),
        decreases rows@.len() - k,
    {
        let ghost before = out@;
        let t = texts_of(&rows[k]);
        let ghost tv = string_views(t@);
        out.push(t);
        assert(output_views(out@) =~= output_views(before).push(tv));
        assert(output_views(out@) =~= want.take(k + 2));
        k += 1;
    }
    assert(want.take(k + 1) =~= want);
    out
}

/// Runs a parsed query on a table. `literal_number` is the filter's literal
/// read as a double, if it reads as one. The first row of the output is the
/// header row.
pub fn execute_query(query: &Query, literal_number: Option<Number>, table: &Table) -> (r: Result<
    Vec<Vec<String>>,
    QueryError,
>)
    ensures
        match r {
            Ok(v) => run_query(query@, literal_number, string_views(table.headers@), row_views(table.rows@)) == Ok::<Seq<Seq<Seq<char>>>, QueryErrorModel>(output_views(v@)),
            Err(e) => run_query(query@, literal_number, string_views(table.headers@), row_views(table.rows@)) == Err::<Seq<Seq<Seq<char>>>, QueryErrorModel>(e@),
        },
{
    let ghost hv = string_views(table.headers@);
    let mut rows: Vec<Vec<Cell>> = match &query.filter {
        None => {
            let mut all: Vec<Vec<Cell>> = Vec::new();
            let mut k: usize = 0;
            while k < table.rows.len()
                invariant
                    k <= table.rows@.len(),
                    row_views(all@) == row_views(table.rows@).take(k as int),
                decreases table.rows@.len() - k,
            {
                let ghost before = all@;
                all.push(copy_row(&table.rows[k]));
                assert(row_views(all@) =~= row_views(before).push(table.rows@[k as int]@));
                assert(row_views(all@) =~= row_views(table.rows@).take(k + 1));
                k += 1;
            }
            assert(row_views(table.rows@).take(k as int) =~= row_views(table.rows@));
            all
        },
        Some(f) => match find_column(&table.headers, &f.column) {
            None => {
                return Err(QueryError::ColumnNotFound { column: f.column.clone(), stage: Stage::Filter });
            },
            Some(i) => {
                let lit = Cell { text: f.value.clone(), number: literal_number };
                apply_filter(&table.rows, i, &f.operator, &lit)
            },
        },
    };
    assert(filter_stage(query@, literal_number, hv, row_views(table.rows@)) == Ok::<Seq<Seq<Cell>>, QueryErrorModel>(row_views(rows@)));
    match &query.sort_column {
        None => {},
        Some(c) => match find_column(&table.headers, c) {
            None => {
                return Err(QueryError::ColumnNotFound { column: c.clone(), stage: Stage::Sort });
            },
            Some(i) => {
                rows = apply_sort(&rows, i, query.sort_desc);
            },
        },
    }
    let ghost sorted = row_views(rows@);
    match query.limit {
        None => {},
        Some(n) => {
            rows.truncate(n);
            assert(row_views(rows@) =~= limited(sorted, n));
        },
    }
    assert(row_views(rows@) == limit_stage(query@, sorted));
    match &query.columns {
        None => Ok(unprojected_rows(&table.headers, &rows)),
        Some(cols) => select_columns(&rows, cols, &table.headers),
    }
}

} // verus!
