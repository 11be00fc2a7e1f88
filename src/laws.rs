//! Properties of the engine that relate several runs or hold of every table.
use vstd::prelude::*;

use crate::eval::{Cell, Number};
use crate::engine::{
    cell_text, column_index, filter_stage, insert_pos, lemma_column_index, limit_stage, limited,
    matcher, missing_column, project_row, projected, row_before, row_matches, run_query,
    sort_stage, sorted_rows, unprojected,
};
use crate::query::{OperatorModel, QueryErrorModel, QueryModel, Stage};

verus! {

/// A filter that asks for a column's value equal to the one that some row
/// holds there keeps that row: the case-insensitive comparison is reflexive.
pub proof fn law_equals_keeps_source_row(
    q: QueryModel,
    ln: Option<Number>,
    headers: Seq<Seq<char>>,
    rows: Seq<Seq<Cell>>,
    j: int,
)
    requires
        0 <= j < rows.len(),
        q.filter is Some,
        q.filter->0.operator == OperatorModel::Equals,
        column_index(headers, q.filter->0.column) is Some,
        column_index(headers, q.filter->0.column)->0 < rows[j].len(),
        q.filter->0.value == rows[j][column_index(headers, q.filter->0.column)->0].text@,
    ensures
        filter_stage(q, ln, headers, rows) matches Ok(kept) && kept.contains(rows[j]),
{
    let f = q.filter->0;
    let i = column_index(headers, f.column)->0;
    lemma_column_index(headers, f.column);
    assert(row_matches(rows[j], i, f.operator, f.value, ln));
    rows.lemma_filter_contains(matcher(i, f.operator, f.value, ln), j);
}

/// A filter on a column that the header does not have fails with
/// `ColumnNotFound` naming that column, whatever the rows.
pub proof fn law_filter_on_missing_column(
    q: QueryModel,
    ln: Option<Number>,
    headers: Seq<Seq<char>>,
    rows: Seq<Seq<Cell>>,
)
    requires
        q.filter is Some,
        !headers.contains(q.filter->0.column),
    ensures
        run_query(q, ln, headers, rows) == Err::<Seq<Seq<Seq<char>>>, QueryErrorModel>(
            QueryErrorModel::ColumnNotFound { column: q.filter->0.column, stage: Stage::Filter },
        ),
{
    let f = q.filter->0;
    lemma_column_index(headers, f.column);
    if let Some(i) = column_index(headers, f.column) {
        assert(headers[i] == f.column);
        assert(headers.contains(f.column));
    }
}

proof fn lemma_missing_column(headers: Seq<Seq<char>>, cols: Seq<Seq<char>>)
    ensures
        missing_column(headers, cols) is None <==> forall|k: int|
            0 <= k < cols.len() ==> #[trigger] column_index(headers, cols[k]) is Some,
    decreases cols.len(),
{
    if cols.len() > 0 {
        lemma_missing_column(headers, cols.skip(1));
        assert forall|k: int| 0 < k < cols.len() implies cols[k] == #[trigger] cols.skip(1)[k - 1] by {}
        if missing_column(headers, cols) is None {
            assert forall|k: int| 0 <= k < cols.len() implies #[trigger] column_index(
                headers,
                cols[k],
            ) is Some by {
                if k > 0 {
                    assert(column_index(headers, cols.skip(1)[k - 1]) is Some);
                }
            }
        } else if column_index(headers, cols[0]) is Some {
            let k2 = choose|k: int|
                0 <= k < cols.skip(1).len() && !(column_index(headers, cols.skip(1)[k]) is Some);
            assert(cols[k2 + 1] == cols.skip(1)[k2]);
        }
    }
}

/// Projecting a projection's output again, on the same columns, gives the
/// same output: the columns are all found among themselves, and each holds
/// what it held.
pub proof fn law_projection_idempotent(
    headers: Seq<Seq<char>>,
    cols: Seq<Seq<char>>,
    rows: Seq<Seq<Cell>>,
    again: Seq<Seq<Cell>>,
)
    requires
        missing_column(headers, cols) is None,
        again.len() == rows.len(),
        forall|j: int|
            0 <= j < rows.len() ==> (#[trigger] again[j]).map_values(|c: Cell| c.text@)
                == project_row(headers, cols, rows[j]),
    ensures
        missing_column(cols, cols) is None,
        projected(cols, cols, again) == projected(headers, cols, rows),
{
    assert forall|k: int| 0 <= k < cols.len() implies #[trigger] column_index(cols, cols[k]) is Some by {
        lemma_column_index(cols, cols[k]);
    }
    lemma_missing_column(cols, cols);
    lemma_missing_column(headers, cols);
    let lhs = projected(cols, cols, again);
    let rhs = projected(headers, cols, rows);
    assert forall|j: int| 0 <= j < rows.len() implies project_row(cols, cols, #[trigger] again[j])
        == project_row(headers, cols, rows[j]) by {
        let texts = again[j].map_values(|c: Cell| c.text@);
        assert forall|k: int| 0 <= k < cols.len() implies project_row(cols, cols, again[j])[k]
            == project_row(headers, cols, rows[j])[k] by {
            lemma_column_index(cols, cols[k]);
            let m = column_index(cols, cols[k])->0;
            assert(cols[m] == cols[k]);
            assert(texts.len() == cols.len());
            assert(cell_text(again[j], m) == texts[m]);
            assert(texts[m] == project_row(headers, cols, rows[j])[m]);
        }
        assert(project_row(cols, cols, again[j]) =~= project_row(headers, cols, rows[j]));
    }
    assert(lhs =~= rhs) by {
        assert forall|t: int| 0 < t < lhs.len() implies lhs[t] == rhs[t] by {
            assert(lhs[t] == project_row(cols, cols, again[t - 1]));
        }
    }
}

/// A limit of `n` leaves `min(n, m)` of the `m` data rows that the query
/// gives without it, and the output is a prefix of that query's output.
pub proof fn law_limit_is_prefix(
    q: QueryModel,
    n: usize,
    ln: Option<Number>,
    headers: Seq<Seq<char>>,
    rows: Seq<Seq<Cell>>,
)
    requires
        q.limit is None,
        run_query(q, ln, headers, rows) is Ok,
    ensures
        run_query(QueryModel { limit: Some(n), ..q }, ln, headers, rows) matches Ok(out) && out.len()
            == 1 + (if n < run_query(q, ln, headers, rows)->Ok_0.len() - 1 {
            n as int
        } else {
            run_query(q, ln, headers, rows)->Ok_0.len() - 1
        }) && out == run_query(q, ln, headers, rows)->Ok_0.take(out.len() as int),
{
    let q2 = QueryModel { limit: Some(n), ..q };
    let r1 = filter_stage(q, ln, headers, rows)->Ok_0;
    assert(filter_stage(q2, ln, headers, r1) == filter_stage(q, ln, headers, r1));
    let r2 = sort_stage(q, headers, r1)->Ok_0;
    assert(sort_stage(q2, headers, r1) == sort_stage(q, headers, r1));
    let all = limit_stage(q, r2);
    let cut = limit_stage(q2, r2);
    assert(all == r2);
    assert(cut == limited(r2, n));
    let k = cut.len() as int;
    assert(cut =~= r2.take(k));
    match q.columns {
        None => {
            let o1 = unprojected(headers, r2);
            let o2 = unprojected(headers, cut);
            assert(o2 =~= o1.take(k + 1));
        },
        Some(cols) => {
            let o1 = projected(headers, cols, r2);
            let o2 = projected(headers, cols, cut);
            assert(o2 =~= o1.take(k + 1));
        },
    }
}


/// The comparison of a sort on cell `i` orders the rows of `all` strictly:
/// any two different rows compare one way, never both ways, and the order is
/// transitive.
pub open spec fn strictly_ordered(all: Seq<Seq<Cell>>, i: int) -> bool {
    &&& forall|a: Seq<Cell>, b: Seq<Cell>|
        all.contains(a) && all.contains(b) && a != b ==> #[trigger] row_before(a, b, i, false)
            || #[trigger] row_before(b, a, i, false)
    &&& forall|a: Seq<Cell>, b: Seq<Cell>|
        all.contains(a) && all.contains(b) ==> !(#[trigger] row_before(a, b, i, false)
            && #[trigger] row_before(b, a, i, false))
    &&& forall|a: Seq<Cell>, b: Seq<Cell>, c: Seq<Cell>|
        all.contains(a) && all.contains(b) && all.contains(c) && #[trigger] row_before(
            a,
            b,
            i,
            false,
        ) && #[trigger] row_before(b, c, i, false) ==> row_before(a, c, i, false)
}

proof fn lemma_insert_pos(s: Seq<Seq<Cell>>, x: Seq<Cell>, i: int, desc: bool)
    ensures
        0 <= insert_pos(s, x, i, desc) <= s.len(),
        forall|k: int|
            insert_pos(s, x, i, desc) <= k < s.len() ==> row_before(x, #[trigger] s[k], i, desc),
        insert_pos(s, x, i, desc) > 0 ==> !row_before(
            x,
            s[insert_pos(s, x, i, desc) - 1],
            i,
            desc,
        ),
    decreases s.len(),
{
    if s.len() > 0 && row_before(x, s.last(), i, desc) {
        lemma_insert_pos(s.drop_last(), x, i, desc);
        assert forall|k: int|
            insert_pos(s, x, i, desc) <= k < s.len() implies row_before(x, #[trigger] s[k], i, desc) by {
            if k < s.len() - 1 {
                assert(s.drop_last()[k] == s[k]);
            }
        }
    }
}

proof fn lemma_sorted_ascending(rows: Seq<Seq<Cell>>, all: Seq<Seq<Cell>>, i: int)
    requires
        strictly_ordered(all, i),
        rows.no_duplicates(),
        forall|k: int| 0 <= k < rows.len() ==> all.contains(#[trigger] rows[k]),
    ensures
        sorted_rows(rows, i, false).len() == rows.len(),
        forall|k: int|
            0 <= k < rows.len() ==> #[trigger] rows.contains(sorted_rows(rows, i, false)[k]),
        forall|a: int, b: int|
            0 <= a < b < rows.len() ==> row_before(
                #[trigger] sorted_rows(rows, i, false)[a],
                #[trigger] sorted_rows(rows, i, false)[b],
                i,
                false,
            ),
    decreases rows.len(),
{
    if rows.len() > 0 {
        let d = rows.drop_last();
        let x = rows.last();
        assert forall|k: int| 0 <= k < d.len() implies all.contains(#[trigger] d[k]) by {
            assert(d[k] == rows[k]);
        }
        lemma_sorted_ascending(d, all, i);
        let s = sorted_rows(d, i, false);
        let p = insert_pos(s, x, i, false);
        lemma_insert_pos(s, x, i, false);
        let r = s.insert(p, x);
        assert(r == sorted_rows(rows, i, false));
        assert(all.contains(x)) by {
            assert(rows[rows.len() - 1] == x);
        }
        assert forall|k: int| 0 <= k < s.len() implies #[trigger] all.contains(s[k]) && s[k] != x
            && rows.contains(s[k]) by {
            assert(d.contains(s[k]));
            let m = choose|m: int| 0 <= m < d.len() && d[m] == s[k];
            assert(rows[m] == s[k]);
            assert(rows[rows.len() - 1] == x);
        }
        assert forall|k: int| 0 <= k < p implies row_before(#[trigger] s[k], x, i, false) by {
            assert(all.contains(s[p - 1]) && s[p - 1] != x);
            assert(row_before(s[p - 1], x, i, false) || row_before(x, s[p - 1], i, false));
            if k < p - 1 {
                assert(row_before(s[k], s[p - 1], i, false));
            }
        }
        assert forall|k: int| 0 <= k < r.len() implies #[trigger] rows.contains(r[k]) by {
            if k == p {
                assert(r[k] == x);
                assert(rows[rows.len() - 1] == x);
            } else if k < p {
                assert(r[k] == s[k]);
                assert(all.contains(s[k]));
            } else {
                assert(r[k] == s[k - 1]);
                assert(all.contains(s[k - 1]));
            }
        }
        assert forall|a: int, b: int| 0 <= a < b < r.len() implies row_before(
            #[trigger] r[a],
            #[trigger] r[b],
            i,
            false,
        ) by {
            if b < p {
                assert(r[a] == s[a] && r[b] == s[b]);
            } else if b == p {
                assert(r[a] == s[a]);
            } else if a == p {
                assert(r[b] == s[b - 1]);
            } else if a < p {
                assert(r[a] == s[a] && r[b] == s[b - 1]);
            } else {
                assert(r[a] == s[a - 1] && r[b] == s[b - 1]);
            }
        }
    }
}

proof fn lemma_descending_position(s: Seq<Seq<Cell>>, x: Seq<Cell>, all: Seq<Seq<Cell>>, i: int)
    requires
        strictly_ordered(all, i),
        all.contains(x),
        forall|k: int| 0 <= k < s.len() ==> all.contains(#[trigger] s[k]) && s[k] != x,
        forall|a: int, b: int|
            0 <= a < b < s.len() ==> row_before(#[trigger] s[a], #[trigger] s[b], i, false),
    ensures
        insert_pos(s.reverse(), x, i, true) == s.len() - insert_pos(s, x, i, false),
{
    let n = s.len() as int;
    let p = insert_pos(s, x, i, false);
    let rv = s.reverse();
    let q = insert_pos(rv, x, i, true);
    lemma_insert_pos(s, x, i, false);
    lemma_insert_pos(rv, x, i, true);
    assert forall|k: int| 0 <= k < p implies row_before(#[trigger] s[k], x, i, false) by {
        assert(row_before(s[p - 1], x, i, false) || row_before(x, s[p - 1], i, false));
        if k < p - 1 {
            assert(row_before(s[k], s[p - 1], i, false));
        }
    }
    if n - q > p {
        let j = n - 1 - p;
        assert(rv[j] == s[p]);
        assert(row_before(x, rv[j], i, true));
        assert(row_before(s[p], x, i, false));
        assert(row_before(x, s[p], i, false));
        assert(all.contains(s[p]));
    }
    if n - q < p {
        assert(q > 0);
        assert(rv[q - 1] == s[n - q]);
        assert(!row_before(x, rv[q - 1], i, true));
        assert(row_before(s[n - q], x, i, false));
    }
}

/// Sorting on a column whose values compare strictly (no ties) in ascending
/// order gives the rows of the descending sort in reverse order.
pub proof fn law_sort_descending_reverses(rows: Seq<Seq<Cell>>, i: int)
    requires
        strictly_ordered(rows, i),
        rows.no_duplicates(),
    ensures
        sorted_rows(rows, i, true) == sorted_rows(rows, i, false).reverse(),
{
    lemma_sort_reverses(rows, rows, i);
}

proof fn lemma_sort_reverses(rows: Seq<Seq<Cell>>, all: Seq<Seq<Cell>>, i: int)
    requires
        strictly_ordered(all, i),
        rows.no_duplicates(),
        forall|k: int| 0 <= k < rows.len() ==> all.contains(#[trigger] rows[k]),
    ensures
        sorted_rows(rows, i, true) == sorted_rows(rows, i, false).reverse(),
    decreases rows.len(),
{
    if rows.len() == 0 {
        assert(sorted_rows(rows, i, false).reverse() =~= rows);
    } else {
        let d = rows.drop_last();
        let x = rows.last();
        assert forall|k: int| 0 <= k < d.len() implies all.contains(#[trigger] d[k]) by {
            assert(d[k] == rows[k]);
        }
        lemma_sort_reverses(d, all, i);
        lemma_sorted_ascending(d, all, i);
        let a = sorted_rows(d, i, false);
        assert(all.contains(x)) by {
            assert(rows[rows.len() - 1] == x);
        }
        assert forall|k: int| 0 <= k < a.len() implies #[trigger] all.contains(a[k]) && a[k] != x by {
            assert(d.contains(a[k]));
            let m = choose|m: int| 0 <= m < d.len() && d[m] == a[k];
            assert(rows[m] == a[k]);
            assert(rows[rows.len() - 1] == x);
        }
        lemma_descending_position(a, x, all, i);
        lemma_insert_pos(a, x, i, false);
        let p = insert_pos(a, x, i, false);
        assert(a.insert(p, x).reverse() =~= a.reverse().insert(a.len() - p, x));
    }
}


proof fn lemma_sorted_keeps_rows(rows: Seq<Seq<Cell>>, i: int, desc: bool)
    ensures
        sorted_rows(rows, i, desc).len() == rows.len(),
        forall|k: int| 0 <= k < rows.len() ==> sorted_rows(rows, i, desc).contains(#[trigger] rows[k]),
    decreases rows.len(),
{
    if rows.len() > 0 {
        let d = rows.drop_last();
        lemma_sorted_keeps_rows(d, i, desc);
        let s = sorted_rows(d, i, desc);
        let p = insert_pos(s, rows.last(), i, desc);
        lemma_insert_pos(s, rows.last(), i, desc);
        let r = s.insert(p, rows.last());
        assert forall|k: int| 0 <= k < rows.len() implies r.contains(#[trigger] rows[k]) by {
            if k == rows.len() - 1 {
                assert(r[p] == rows[k]);
            } else {
                assert(d[k] == rows[k]);
                assert(s.contains(d[k]));
                let t = choose|t: int| 0 <= t < s.len() && s[t] == d[k];
                if t < p {
                    assert(r[t] == rows[k]);
                } else {
                    assert(r[t + 1] == rows[k]);
                }
            }
        }
    }
}

/// Whether `u` stands before `v` in `s`.
pub open spec fn stands_before(s: Seq<Seq<Cell>>, u: Seq<Cell>, v: Seq<Cell>) -> bool {
    exists|a: int, b: int| 0 <= a < b < s.len() && #[trigger] s[a] == u && #[trigger] s[b] == v
}

proof fn lemma_ties_keep_order(rows: Seq<Seq<Cell>>, i: int, desc: bool, p: int, q: int)
    requires
        0 <= p < q < rows.len(),
        !row_before(rows[q], rows[p], i, desc),
    ensures
        stands_before(sorted_rows(rows, i, desc), rows[p], rows[q]),
    decreases rows.len(),
{
    let d = rows.drop_last();
    let x = rows.last();
    let s = sorted_rows(d, i, desc);
    let pos = insert_pos(s, x, i, desc);
    lemma_insert_pos(s, x, i, desc);
    let r = s.insert(pos, x);
    assert(r == sorted_rows(rows, i, desc));
    if q == rows.len() - 1 {
        lemma_sorted_keeps_rows(d, i, desc);
        assert(d[p] == rows[p]);
        assert(s.contains(d[p]));
        let t = choose|t: int| 0 <= t < s.len() && s[t] == d[p];
        assert(!row_before(x, s[t], i, desc));
        assert(t < pos);
        assert(r[t] == rows[p] && r[pos] == x);
    } else {
        assert(d[p] == rows[p] && d[q] == rows[q]);
        lemma_ties_keep_order(d, i, desc, p, q);
        let (a, b) = choose|a: int, b: int|
            0 <= a < b < s.len() && #[trigger] s[a] == rows[p] && #[trigger] s[b] == rows[q];
        let a2 = if a < pos { a } else { a + 1 };
        let b2 = if b < pos { b } else { b + 1 };
        assert(r[a2] == rows[p] && r[b2] == rows[q]);
    }
}

/// A stable sort: of two rows that compare equal, the earlier one stays
/// before the later one, in an ascending and in a descending sort alike.
pub proof fn law_sort_keeps_ties(rows: Seq<Seq<Cell>>, i: int, p: int, q: int)
    requires
        0 <= p < q < rows.len(),
        !row_before(rows[p], rows[q], i, false),
        !row_before(rows[q], rows[p], i, false),
    ensures
        stands_before(sorted_rows(rows, i, false), rows[p], rows[q]),
        stands_before(sorted_rows(rows, i, true), rows[p], rows[q]),
{
    lemma_ties_keep_order(rows, i, false, p, q);
    lemma_ties_keep_order(rows, i, true, p, q);
}

} // verus!
