//! The query: its types, their mathematical models, and the parser from a
//! pipeline string to a `Query`.
use vstd::prelude::*;

use crate::text::{
    chars_of, join_from, join_spaced, lower_chars, lower_of, same_chars, split_by, split_on,
    split_words, string_of, trim, trim_chars, views, words,
};

verus! {

/// How a filter compares a cell with its literal.
#[derive(Debug)]
pub enum Operator {
    Equals,
    GreaterThan,
    LessThan,
    Contains,
    /// An operator word that is none of the known ones, kept as written.
    RawToken(String),
}

pub enum OperatorModel {
    Equals,
    GreaterThan,
    LessThan,
    Contains,
    RawToken(Seq<char>),
}

impl View for Operator {
    type V = OperatorModel;

    open spec fn view(&self) -> OperatorModel {
        match self {
            Operator::Equals => OperatorModel::Equals,
            Operator::GreaterThan => OperatorModel::GreaterThan,
            Operator::LessThan => OperatorModel::LessThan,
            Operator::Contains => OperatorModel::Contains,
            Operator::RawToken(t) => OperatorModel::RawToken(t@),
        }
    }
}

/// One column-operator-literal condition on the rows.
#[derive(Debug)]
pub struct Filter {
    pub column: String,
    pub operator: Operator,
    pub value: String,
}

pub struct FilterModel {
    pub column: Seq<char>,
    pub operator: OperatorModel,
    pub value: Seq<char>,
}

impl View for Filter {
    type V = FilterModel;

    open spec fn view(&self) -> FilterModel {
        FilterModel { column: self.column@, operator: self.operator@, value: self.value@ }
    }
}

/// A parsed pipeline: the table it reads, and at most one filter, projection,
/// sort and limit.
#[derive(Debug)]
pub struct Query {
    pub table: String,
    pub filter: Option<Filter>,
    pub columns: Option<Vec<String>>,
    pub sort_column: Option<String>,
    pub sort_desc: bool,
    pub limit: Option<usize>,
}

pub struct QueryModel {
    pub table: Seq<char>,
    pub filter: Option<FilterModel>,
    pub columns: Option<Seq<Seq<char>>>,
    pub sort_column: Option<Seq<char>>,
    pub sort_desc: bool,
    pub limit: Option<usize>,
}

pub open spec fn string_views(v: Seq<String>) -> Seq<Seq<char>> {
    v.map_values(|s: String| s@)
}

impl View for Query {
    type V = QueryModel;

    open spec fn view(&self) -> QueryModel {
        QueryModel {
            table: self.table@,
            filter: match self.filter {
                Some(f) => Some(f@),
                None => None,
            },
            columns: match self.columns {
                Some(c) => Some(string_views(c@)),
                None => None,
            },
            sort_column: match self.sort_column {
                Some(c) => Some(c@),
                None => None,
            },
            sort_desc: self.sort_desc,
            limit: self.limit,
        }
    }
}

/// The step of the pipeline at which a column was looked up.
#[derive(PartialEq, Eq, Structural, Clone, Copy, Debug)]
pub enum Stage {
    Filter,
    Sort,
    Projection,
}

/// Why a query could not be parsed or run.
#[derive(Debug)]
pub enum QueryError {
    /// The query names no table.
    EmptyQuery,
    /// A filter stage of fewer than three words; it holds the stage.
    InvalidFilter(String),
    /// A filter stage with no literal after its operator; it holds the stage.
    MissingFilterValue(String),
    /// A column that the table's header does not have.
    ColumnNotFound { column: String, stage: Stage },
}

pub enum QueryErrorModel {
    EmptyQuery,
    InvalidFilter(Seq<char>),
    MissingFilterValue(Seq<char>),
    ColumnNotFound { column: Seq<char>, stage: Stage },
}

impl View for QueryError {
    type V = QueryErrorModel;

    open spec fn view(&self) -> QueryErrorModel {
        match self {
            QueryError::EmptyQuery => QueryErrorModel::EmptyQuery,
            QueryError::InvalidFilter(s) => QueryErrorModel::InvalidFilter(s@),
            QueryError::MissingFilterValue(s) => QueryErrorModel::MissingFilterValue(s@),
            QueryError::ColumnNotFound { column, stage } => QueryErrorModel::ColumnNotFound {
                column: column@,
                stage: *stage,
            },
        }
    }
}

pub open spec fn result_view<T: View>(r: Result<T, QueryError>) -> Result<T::V, QueryErrorModel> {
    match r {
        Ok(v) => Ok(v@),
        Err(e) => Err(e@),
    }
}

/// The operator of a filter stage's words, and the position of the first
/// word of its literal.
pub open spec fn operator_of(ws: Seq<Seq<char>>) -> (OperatorModel, int) {
    if ws.len() >= 4 && ws[1] == "greater"@ && ws[2] == "than"@ {
        (OperatorModel::GreaterThan, 3)
    } else if ws.len() >= 4 && ws[1] == "less"@ && ws[2] == "than"@ {
        (OperatorModel::LessThan, 3)
    } else if ws[1] == "equals"@ {
        (OperatorModel::Equals, 2)
    } else if ws[1] == "contains"@ {
        (OperatorModel::Contains, 2)
    } else {
        (OperatorModel::RawToken(ws[1]), 2)
    }
}

/// What a filter stage `s` parses to.
pub open spec fn filter_of(s: Seq<char>) -> Result<FilterModel, QueryErrorModel> {
    let ws = words(s);
    if ws.len() < 3 {
        Err(QueryErrorModel::InvalidFilter(s))
    } else {
        let (op, start) = operator_of(ws);
        if ws.len() <= start {
            Err(QueryErrorModel::MissingFilterValue(s))
        } else {
            Ok(FilterModel { column: ws[0], operator: op, value: join_spaced(ws.skip(start)) })
        }
    }
}

/// Whether the characters of `w` are those of the literal `k`.
fn is_word(w: &Vec<char>, k: &str) -> (r: bool)
    ensures
        r == (w@ == k@),
{
    let kc = chars_of(k);
    same_chars(w, &kc)
}

/// Parses one filter stage: `<column> <operator words> <literal words>`.
pub fn parse_filter(filter_str: &str) -> (r: Result<Filter, QueryError>)
    ensures
        result_view(r) == filter_of(filter_str@),
{
    let s = chars_of(filter_str);
    let ws = split_words(&s);
    let ghost wv = views(ws@);
    assert(wv.len() == ws@.len());
    if ws.len() < 3 {
        return Err(QueryError::InvalidFilter(string_of(s.as_slice())));
    }
    assert(wv[1] == ws@[1]@ && wv[2] == ws@[2]@ && wv[0] == ws@[0]@);
    let (operator, start): (Operator, usize) = if ws.len() >= 4 && is_word(&ws[1], "greater")
        && is_word(&ws[2], "than") {
        (Operator::GreaterThan, 3)
    } else if ws.len() >= 4 && is_word(&ws[1], "less") && is_word(&ws[2], "than") {
        (Operator::LessThan, 3)
    } else if is_word(&ws[1], "equals") {
        (Operator::Equals, 2)
    } else if is_word(&ws[1], "contains") {
        (Operator::Contains, 2)
    } else {
        (Operator::RawToken(string_of(ws[1].as_slice())), 2)
    };
    if ws.len() <= start {
        return Err(QueryError::MissingFilterValue(string_of(s.as_slice())));
    }
    let value = join_from(&ws, start);
    Ok(Filter { column: string_of(ws[0].as_slice()), operator, value: string_of(value.as_slice()) })
}


pub open spec fn is_digit(c: char) -> bool {
    '0' <= c && c <= '9'
}

/// The value of a string of decimal digits.
pub open spec fn digits_value(s: Seq<char>) -> int
    decreases s.len(),
{
    if s.len() == 0 {
        0
    } else {
        digits_value(s.drop_last()) * 10 + (s.last() as int - '0' as int)
    }
}

/// The digits of a number as `usize`'s `from_str` reads it: an optional `+`
/// before them.
pub open spec fn unsigned_digits(s: Seq<char>) -> Seq<char> {
    if s.len() > 0 && s[0] == '+' {
        s.skip(1)
    } else {
        s
    }
}

/// What `str::parse::<usize>` gives for `s`: a value for one or more decimal
/// digits, after an optional `+`, whose value fits.
pub open spec fn usize_of(s: Seq<char>) -> Option<usize> {
    if unsigned_digits(s).len() > 0 && all_digits(unsigned_digits(s)) && digits_value(
        unsigned_digits(s),
    ) <= usize::MAX {
        Some(digits_value(unsigned_digits(s)) as usize)
    } else {
        None
    }
}

pub open spec fn all_digits(d: Seq<char>) -> bool {
    forall|i: int| 0 <= i < d.len() ==> is_digit(#[trigger] d[i])
}

proof fn lemma_digits_grow(s: Seq<char>, k: int)
    requires
        0 <= k <= s.len(),
        forall|i: int| 0 <= i < s.len() ==> is_digit(#[trigger] s[i]),
    ensures
        0 <= digits_value(s.take(k)) <= digits_value(s),
    decreases s.len(),
{
    if k < s.len() {
        assert(s.drop_last().take(k) == s.take(k));
        lemma_digits_grow(s.drop_last(), k);
    } else {
        assert(s.take(k) == s);
        if s.len() > 0 {
            lemma_digits_grow(s.drop_last(), k - 1);
            assert(s.drop_last().take(k - 1) == s.drop_last());
        }
    }
}

/// Reads a limit: the `usize` that `w` spells, if it spells one.
pub fn parse_usize(w: &Vec<char>) -> (r: Option<usize>)
    ensures
        r == usize_of(w@),
{
    let start: usize = if w.len() > 0 && w[0] == '+' { 1 } else { 0 };
    let ghost d = unsigned_digits(w@);
    assert(d == w@.skip(start as int));
    if start >= w.len() {
        return None;
    }
    let mut value: usize = 0;
    let mut i: usize = start;
    assert(d.take(0) =~= Seq::<char>::empty());
    while i < w.len()
        invariant
            start <= i <= w@.len(),
            d == w@.skip(start as int),
            d == unsigned_digits(w@),
            forall|j: int| 0 <= j < i - start ==> is_digit(#[trigger] d[j]),
            value == digits_value(d.take(i - start)),
        decreases w@.len() - i,
    {
        let c = w[i];
        let ghost k = i - start;
        assert(d[k] == c);
        if !('0' <= c && c <= '9') {
            assert(!is_digit(d[k]));
            assert(0 <= k < d.len());
            assert(!all_digits(d));
            return None;
        }
        assert(d.take(k + 1).drop_last() == d.take(k));
        assert(d.take(k + 1).last() == c);
        let digit = (c as u32 - '0' as u32) as usize;
        assert(digits_value(d.take(k + 1)) == value * 10 + digit);
        let next = value.checked_mul(10);
        let next = match next {
            Some(m) => m.checked_add(digit),
            None => None,
        };
        match next {
            Some(v) => {
                value = v;
            },
            None => {
                proof {
                    assert(digits_value(d.take(k + 1)) > usize::MAX);
                    if all_digits(d) {
                        lemma_digits_grow(d, k + 1);
                    }
                }
                return None;
            },
        }
        i += 1;
    }
    assert(d.take(i - start) == d);
    Some(value)
}


/// A query on table `table` with no other stage.
pub open spec fn initial_query(table: Seq<char>) -> QueryModel {
    QueryModel {
        table,
        filter: None,
        columns: None,
        sort_column: None,
        sort_desc: false,
        limit: None,
    }
}

/// The columns that a `show` stage names: what follows its first word, split
/// at commas, each piece trimmed.
pub open spec fn projection_of(stage: Seq<char>, first: Seq<char>) -> Seq<Seq<char>> {
    split_on(trim(stage.skip(first.len() as int)), seq![',']).map_values(|c: Seq<char>| trim(c))
}

/// What one stage after the first does to the query built so far: the kind of
/// stage is told by its first word, lower-cased.
pub open spec fn apply_stage(q: QueryModel, stage: Seq<char>) -> Result<QueryModel, QueryErrorModel> {
    let ws = words(stage);
    if ws.len() == 0 {
        Ok(q)
    } else if lower_of(ws[0]) == "show"@ {
        Ok(QueryModel { columns: Some(projection_of(stage, ws[0])), ..q })
    } else if lower_of(ws[0]) == "sort"@ {
        if ws.len() >= 2 {
            Ok(
                QueryModel {
                    sort_column: Some(ws[1]),
                    sort_desc: ws.len() >= 3 && lower_of(ws[2]) == "desc"@,
                    ..q
                },
            )
        } else {
            Ok(q)
        }
    } else if lower_of(ws[0]) == "take"@ || lower_of(ws[0]) == "limit"@ {
        if ws.len() >= 2 {
            Ok(QueryModel { limit: usize_of(ws[1]), ..q })
        } else {
            Ok(q)
        }
    } else {
        match filter_of(stage) {
            Ok(f) => Ok(QueryModel { filter: Some(f), ..q }),
            Err(e) => Err(e),
        }
    }
}

/// The stages in turn, each applied to what the ones before built; the first
/// error stops it.
pub open spec fn apply_stages(q: QueryModel, stages: Seq<Seq<char>>) -> Result<
    QueryModel,
    QueryErrorModel,
>
    decreases stages.len(),
{
    if stages.len() == 0 {
        Ok(q)
    } else {
        match apply_stage(q, stages[0]) {
            Ok(q2) => apply_stages(q2, stages.skip(1)),
            Err(e) => Err(e),
        }
    }
}

/// The stages of a query string: the pieces between `>>`, each trimmed.
pub open spec fn stages_of(s: Seq<char>) -> Seq<Seq<char>> {
    split_on(s, ">>"@).map_values(|p: Seq<char>| trim(p))
}

/// What a query string parses to: its first stage names the table, and must
/// not be empty.
pub open spec fn query_of(s: Seq<char>) -> Result<QueryModel, QueryErrorModel> {
    let st = stages_of(s);
    if st[0].len() == 0 {
        Err(QueryErrorModel::EmptyQuery)
    } else {
        apply_stages(initial_query(st[0]), st.skip(1))
    }
}

fn projection_list(stage: &Vec<char>, first_len: usize) -> (r: Vec<String>)
    requires
        first_len <= stage@.len(),
    ensures
        string_views(r@) == split_on(trim(stage@.skip(first_len as int)), seq![',']).map_values(
            |c: Seq<char>| trim(c),
        ),
{
    let mut rest: Vec<char> = Vec::new();
    let mut k: usize = first_len;
    while k < stage.len()
        invariant
            first_len <= k <= stage@.len(),
            rest@ == stage@.subrange(first_len as int, k as int),
        decreases stage@.len() - k,
    {
        rest.push(stage[k]);
        k += 1;
        assert(rest@ =~= stage@.subrange(first_len as int, k as int));
    }
    assert(rest@ =~= stage@.skip(first_len as int));
    let trimmed = trim_chars(&rest);
    let comma = vec![','];
    assert(comma@ =~= seq![',']);
    let pieces = split_by(&trimmed, &comma);
    let ghost want = views(pieces@).map_values(|c: Seq<char>| trim(c));
    let mut out: Vec<String> = Vec::new();
    let mut j: usize = 0;
    while j < pieces.len()
        invariant
            j <= pieces@.len(),
            want == views(pieces@).map_values(|c: Seq<char>| trim(c)),
            string_views(out@) == want.take(j as int),
        decreases pieces@.len() - j,
    {
        let t = trim_chars(&pieces[j]);
        assert(want[j as int] == trim(pieces@[j as int]@));
        let ghost before = out@;
        out.push(string_of(t.as_slice()));
        assert(string_views(out@) =~= string_views(before).push(t@));
        j += 1;
        assert(string_views(out@) =~= want.take(j as int));
    }
    assert(want.take(j as int) =~= want);
    out
}

fn apply_stage_to(q: Query, stage: &Vec<char>) -> (r: Result<Query, QueryError>)
    ensures
        result_view(r) == apply_stage(q@, stage@),
{
    let mut q = q;
    let ws = split_words(stage);
    let ghost wv = views(ws@);
    assert(wv.len() == ws@.len());
    if ws.len() == 0 {
        return Ok(q);
    }
    assert(wv[0] == ws@[0]@);
    let first = lower_chars(&ws[0]);
    if is_word(&first, "show") {
        let cols = projection_list(stage, ws[0].len());
        q.columns = Some(cols);
        Ok(q)
    } else if is_word(&first, "sort") {
        if ws.len() >= 2 {
            assert(wv[1] == ws@[1]@);
            q.sort_column = Some(string_of(ws[1].as_slice()));
            q.sort_desc = if ws.len() >= 3 {
                assert(wv[2] == ws@[2]@);
                let third = lower_chars(&ws[2]);
                is_word(&third, "desc")
            } else {
                false
            };
        }
        Ok(q)
    } else if is_word(&first, "take") || is_word(&first, "limit") {
        if ws.len() >= 2 {
            assert(wv[1] == ws@[1]@);
            q.limit = parse_usize(&ws[1]);
        }
        Ok(q)
    } else {
        let text = string_of(stage.as_slice());
        match parse_filter(text.as_str()) {
            Ok(f) => {
                q.filter = Some(f);
                Ok(q)
            },
            Err(e) => Err(e),
        }
    }
}

/// Parses a query string: `<table> >> <stage> >> ...`, where a stage is
/// `show <columns>`, `sort <column> [desc]`, `take <n>`, `limit <n>` or a
/// filter. A later stage of a kind replaces an earlier one.
pub fn parse_query(input: &str) -> (r: Result<Query, QueryError>)
    ensures
        result_view(r) == query_of(input@),
{
    let s = chars_of(input);
    let delim = chars_of(">>");
    proof {
        reveal_strlit(">>");
        crate::text::lemma_split_on_nonempty(s@, delim@);
    }
    assert(delim@.len() == 2);
    let raw = split_by(&s, &delim);
    let ghost st = stages_of(input@);
    assert(views(raw@).len() == raw@.len());
    assert(st.len() == raw@.len());
    let table = trim_chars(&raw[0]);
    assert(table@ == st[0]);
    if table.len() == 0 {
        return Err(QueryError::EmptyQuery);
    }
    let mut q = Query {
        table: string_of(table.as_slice()),
        filter: None,
        columns: None,
        sort_column: None,
        sort_desc: false,
        limit: None,
    };
    let ghost whole = apply_stages(initial_query(st[0]), st.skip(1));
    assert(st.skip(1).skip(0) == st.skip(1));
    let mut i: usize = 1;
    while i < raw.len()
        invariant
            1 <= i <= raw@.len(),
            st.len() == raw@.len(),
            st == stages_of(input@),
            st[0].len() > 0,
            st == views(raw@).map_values(|p: Seq<char>| trim(p)),
            whole == apply_stages(initial_query(st[0]), st.skip(1)),
            whole == apply_stages(q@, st.skip(i as int)),
        decreases raw@.len() - i,
    {
        let stage = trim_chars(&raw[i]);
        assert(stage@ == st[i as int]);
        assert(st.skip(i as int)[0] == st[i as int]);
        assert(st.skip(i as int).skip(1) == st.skip(i + 1));
        assert(st.skip(i as int).len() > 0);
        let ghost qv = q@;
        assert(whole == match apply_stage(qv, st[i as int]) {
            Ok(q2) => apply_stages(q2, st.skip(i + 1)),
            Err(e) => Err(e),
        });
        match apply_stage_to(q, &stage) {
            Ok(q2) => {
                q = q2;
            },
            Err(e) => {
                return Err(e);
            },
        }
        i += 1;
    }
    assert(st.skip(i as int).len() == 0);
    Ok(q)
}

} // verus!
