use flexiql::engine::{execute_query, Table};
use flexiql::eval::{check_condition, Cell, Number};
use flexiql::query::{parse_filter, parse_query, Operator, Query, QueryError, Stage};

fn cell(text: &str) -> Cell {
    Cell {
        text: text.to_string(),
        number: text.parse::<f64>().ok().map(|x| Number::from_bits(x.to_bits())),
    }
}

fn table(headers: &[&str], rows: &[&[&str]]) -> Table {
    Table {
        headers: headers.iter().map(|h| h.to_string()).collect(),
        rows: rows.iter().map(|r| r.iter().map(|c| cell(c)).collect()).collect(),
    }
}

fn people() -> Table {
    table(&["name", "age"], &[&["Ann", "30"], &["Bob", "25"]])
}

fn run(q: &str, t: &Table) -> Result<Vec<Vec<String>>, QueryError> {
    let query = parse_query(q).unwrap_or_else(|_| panic!("query does not parse: {}", q));
    let lit = query
        .filter
        .as_ref()
        .and_then(|f| f.value.parse::<f64>().ok())
        .map(|x| Number::from_bits(x.to_bits()));
    execute_query(&query, lit, t)
}

fn rows(v: &[&[&str]]) -> Vec<Vec<String>> {
    v.iter().map(|r| r.iter().map(|c| c.to_string()).collect()).collect()
}

#[test]
fn greater_than_then_show() {
    let out = run("t >> age greater than 26 >> show name", &people()).unwrap();
    assert_eq!(out, rows(&[&["name"], &["Ann"]]));
}

#[test]
fn sort_desc_then_take_one() {
    let out = run("t >> sort age desc >> take 1", &people()).unwrap();
    assert_eq!(out, rows(&[&["name", "age"], &["Ann", "30"]]));
}

#[test]
fn contains_is_case_insensitive() {
    let out = run("t >> name contains an >> show name", &people()).unwrap();
    assert_eq!(out, rows(&[&["name"], &["Ann"]]));
}

#[test]
fn equals_on_existing_value_keeps_row() {
    let t = table(&["city"], &[&["Paris"], &["Rome"], &["paris"]]);
    let out = run("t >> city equals Paris", &t).unwrap();
    assert_eq!(out, rows(&[&["city"], &["Paris"], &["paris"]]));
    let upper = run("t >> city equals ROME", &t).unwrap();
    assert_eq!(upper, rows(&[&["city"], &["Rome"]]));
}

#[test]
fn sort_ascending_and_descending_are_reverses() {
    let t = table(&["n"], &[&["3"], &["10"], &["2"], &["7"]]);
    let asc = run("t >> sort n", &t).unwrap();
    let desc = run("t >> sort n desc", &t).unwrap();
    assert_eq!(asc, rows(&[&["n"], &["2"], &["3"], &["7"], &["10"]]));
    let mut reversed = desc[1..].to_vec();
    reversed.reverse();
    assert_eq!(asc[1..].to_vec(), reversed);
}

#[test]
fn sort_keeps_ties_in_order_both_ways() {
    let t = table(&["k", "id"], &[&["1", "a"], &["2", "b"], &["1", "c"], &["2", "d"]]);
    let asc = run("t >> sort k", &t).unwrap();
    assert_eq!(asc, rows(&[&["k", "id"], &["1", "a"], &["1", "c"], &["2", "b"], &["2", "d"]]));
    let desc = run("t >> sort k DESC", &t).unwrap();
    assert_eq!(desc, rows(&[&["k", "id"], &["2", "b"], &["2", "d"], &["1", "a"], &["1", "c"]]));
}

#[test]
fn sort_text_column_by_code_points() {
    let t = table(&["w"], &[&["pear"], &["Apple"], &["apple"]]);
    let out = run("t >> sort w", &t).unwrap();
    assert_eq!(out, rows(&[&["w"], &["Apple"], &["apple"], &["pear"]]));
}

#[test]
fn limit_keeps_a_prefix() {
    let t = table(&["n"], &[&["1"], &["2"], &["3"]]);
    let all = run("t", &t).unwrap();
    for n in 0..6usize {
        let out = run(&format!("t >> take {}", n), &t).unwrap();
        assert_eq!(out.len(), 1 + n.min(3));
        assert_eq!(out[..], all[..out.len()]);
    }
    let zero = run("t >> limit 0", &t).unwrap();
    assert_eq!(zero, rows(&[&["n"]]));
}

#[test]
fn reprojection_gives_same_output() {
    let t = table(&["a", "b", "c"], &[&["1", "2", "3"], &["4", "5", "6"]]);
    let once = run("t >> show c, a, c", &t).unwrap();
    assert_eq!(once, rows(&[&["c", "a", "c"], &["3", "1", "3"], &["6", "4", "6"]]));
    let headers: Vec<&str> = once[0].iter().map(|s| s.as_str()).collect();
    let body: Vec<Vec<&str>> = once[1..].iter().map(|r| r.iter().map(|s| s.as_str()).collect()).collect();
    let body_refs: Vec<&[&str]> = body.iter().map(|r| r.as_slice()).collect();
    let t2 = table(&headers, &body_refs);
    let twice = run("t >> show c, a, c", &t2).unwrap();
    assert_eq!(once, twice);
}

#[test]
fn filter_on_missing_column_fails() {
    let err = run("t >> height greater than 3", &people()).unwrap_err();
    match err {
        QueryError::ColumnNotFound { column, stage } => {
            assert_eq!(column, "height");
            assert_eq!(stage, Stage::Filter);
        }
        _ => panic!("wrong error"),
    }
}

#[test]
fn sort_and_show_on_missing_column_fail() {
    match run("t >> sort height", &people()).unwrap_err() {
        QueryError::ColumnNotFound { column, stage } => {
            assert_eq!(column, "height");
            assert_eq!(stage, Stage::Sort);
        }
        _ => panic!("wrong error"),
    }
    match run("t >> show name, height", &people()).unwrap_err() {
        QueryError::ColumnNotFound { column, stage } => {
            assert_eq!(column, "height");
            assert_eq!(stage, Stage::Projection);
        }
        _ => panic!("wrong error"),
    }
}

#[test]
fn parse_full_query() {
    let q: Query = parse_query("employees >> salary greater than 50000 >> show name, salary").unwrap();
    assert_eq!(q.table, "employees");
    let f = q.filter.unwrap();
    assert_eq!(f.column, "salary");
    assert!(matches!(f.operator, Operator::GreaterThan));
    assert_eq!(f.value, "50000");
    assert_eq!(q.columns.unwrap(), vec!["name".to_string(), "salary".to_string()]);
    assert_eq!(q.sort_column, None);
    assert!(!q.sort_desc);
    assert_eq!(q.limit, None);
}

#[test]
fn parse_empty_query() {
    assert!(matches!(parse_query(""), Err(QueryError::EmptyQuery)));
    assert!(matches!(parse_query("   "), Err(QueryError::EmptyQuery)));
    assert!(matches!(parse_query(" >> show a"), Err(QueryError::EmptyQuery)));
}

#[test]
fn parse_invalid_filter() {
    match parse_query("t >> age 5") {
        Err(QueryError::InvalidFilter(s)) => assert_eq!(s, "age 5"),
        _ => panic!("expected InvalidFilter"),
    }
}

#[test]
fn filter_operators_and_literals() {
    let f = parse_filter("name   equals  Mary   Ann").unwrap();
    assert!(matches!(f.operator, Operator::Equals));
    assert_eq!(f.value, "Mary Ann");
    let f = parse_filter("age less than 3 4").unwrap();
    assert!(matches!(f.operator, Operator::LessThan));
    assert_eq!(f.value, "3 4");
    let f = parse_filter("age greater than").unwrap();
    match f.operator {
        Operator::RawToken(t) => assert_eq!(t, "greater"),
        _ => panic!("expected a raw token"),
    }
    assert_eq!(f.value, "than");
    let f = parse_filter("age >= 3").unwrap();
    match f.operator {
        Operator::RawToken(t) => assert_eq!(t, ">="),
        _ => panic!("expected a raw token"),
    }
}

#[test]
fn later_stages_replace_earlier() {
    let q = parse_query("t >> sort a desc >> sort b >> take 5 >> take x >> show a >> show b").unwrap();
    assert_eq!(q.sort_column, Some("b".to_string()));
    assert!(!q.sort_desc);
    assert_eq!(q.limit, None);
    assert_eq!(q.columns.unwrap(), vec!["b".to_string()]);
    let q = parse_query("t >> limit +7 >> sort a desc extra >> >>").unwrap();
    assert_eq!(q.limit, Some(7));
    assert!(q.sort_desc);
    let q = parse_query("t >> take 99999999999999999999999").unwrap();
    assert_eq!(q.limit, None);
}

#[test]
fn show_keyword_in_any_case() {
    let q = parse_query("t >> SHOW a ,b,, a").unwrap();
    assert_eq!(
        q.columns.unwrap(),
        vec!["a".to_string(), "b".to_string(), "".to_string(), "a".to_string()]
    );
}

#[test]
fn raw_symbols_and_unknown_operators() {
    let t = people();
    assert_eq!(run("t >> name = ann >> show age", &t).unwrap(), rows(&[&["age"], &["30"]]));
    assert_eq!(run("t >> name == BOB >> show age", &t).unwrap(), rows(&[&["age"], &["25"]]));
    assert_eq!(run("t >> age > 26 >> show name", &t).unwrap(), rows(&[&["name"], &["Ann"]]));
    assert_eq!(run("t >> age < 26 >> show name", &t).unwrap(), rows(&[&["name"], &["Bob"]]));
    assert_eq!(run("t >> age like 30", &t).unwrap(), rows(&[&["name", "age"]]));
    assert_eq!(run("t >> age greater 20", &t).unwrap(), rows(&[&["name", "age"]]));
}

#[test]
fn numeric_and_text_comparison() {
    let nine = cell("9");
    let ten = cell("10");
    assert!(check_condition(&ten, &Operator::GreaterThan, &nine));
    assert!(!check_condition(&ten, &Operator::LessThan, &nine));
    let word = cell("abc");
    assert!(check_condition(&word, &Operator::GreaterThan, &ten));
    assert!(check_condition(&cell("-2.5"), &Operator::LessThan, &cell("-0.5")));
    assert!(!check_condition(&cell("0"), &Operator::LessThan, &cell("-0")));
    assert!(!check_condition(&cell("NaN"), &Operator::GreaterThan, &nine));
    assert!(check_condition(&cell("inf"), &Operator::GreaterThan, &cell("1e300")));
}

#[test]
fn contains_and_equals_fold_case() {
    let c = cell("Straße");
    assert!(check_condition(&c, &Operator::Contains, &cell("STRA")));
    assert!(check_condition(&c, &Operator::Equals, &cell("STRAßE")));
    assert!(!check_condition(&c, &Operator::Equals, &cell("Strasse")));
    assert!(check_condition(&c, &Operator::Contains, &cell("")));
}

#[test]
fn number_from_bits() {
    let n = Number::from_bits((-2.0f64).to_bits());
    assert!(n.negative);
    assert_eq!(n.magnitude, 2.0f64.to_bits());
    let p = Number::from_bits(0.5f64.to_bits());
    assert!(!p.negative);
}

#[test]
fn short_rows_do_not_match_and_sort_as_empty() {
    let t = Table {
        headers: vec!["a".to_string(), "b".to_string()],
        rows: vec![vec![cell("x"), cell("z")], vec![cell("y")]],
    };
    assert_eq!(run("t >> b equals z >> show a", &t).unwrap(), rows(&[&["a"], &["x"]]));
    assert_eq!(run("t >> sort b >> show a, b", &t).unwrap(), rows(&[&["a", "b"], &["y", ""], &["x", "z"]]));
}
