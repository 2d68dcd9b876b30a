use shard_means::aggregate::{group_means, Mean};
use shard_means::stacking::stack_tables;
use shard_means::join::left_join;
use shard_means::lazy::LazyQuery;
use shard_means::pipeline::{load_shards, projection_columns, resolve_key_table, run};
use shard_means::summary::{mean_of_group_means, summarize, Ratio, Summary};
use shard_means::table::{Column, ColumnKind, PipelineError, Table};

fn s(x: &str) -> String {
    x.to_string()
}

fn names(xs: &[&str]) -> Vec<String> {
    xs.iter().map(|x| x.to_string()).collect()
}

fn text(xs: &[Option<&str>]) -> Column {
    Column::Text(xs.iter().map(|x| x.map(|y| y.to_string())).collect())
}

fn num(xs: &[Option<i64>]) -> Column {
    Column::Numeric(xs.to_vec())
}

fn table(ns: &[&str], cols: Vec<Column>) -> Table {
    Table::new(names(ns), cols).unwrap()
}

fn text_cells(c: &Column) -> Vec<Option<String>> {
    match c {
        Column::Text(v) => v.clone(),
        Column::Numeric(_) => panic!("expected a text column"),
    }
}

fn num_cells(c: &Column) -> Vec<Option<i64>> {
    match c {
        Column::Numeric(v) => v.clone(),
        Column::Text(_) => panic!("expected a numeric column"),
    }
}

fn ratio_is(r: &Option<Ratio>, num: i128, den: i128) -> bool {
    match r {
        Some(x) => x.den > 0 && x.num * den == num * x.den,
        None => false,
    }
}

fn value<'a>(sm: &'a Summary, name: &str) -> &'a Option<Ratio> {
    let i = sm.names.iter().position(|n| n == name).unwrap();
    &sm.values[i]
}

fn scenario_shards() -> Vec<Table> {
    vec![
        table(&["A", "I", "P"], vec![text(&[Some("x")]), num(&[Some(10)]), num(&[Some(1)])]),
        table(
            &["A", "I", "P"],
            vec![text(&[Some("x"), Some("y")]), num(&[Some(20), Some(5)]), num(&[Some(3), Some(5)])],
        ),
    ]
}

fn scenario_keys() -> Vec<Table> {
    vec![table(&["key", "extra"], vec![text(&[Some("x")]), num(&[Some(100)])])]
}

#[test]
fn loaded_shards_have_exactly_the_projected_columns() {
    let shards = vec![
        table(&["P", "A", "Z", "I"], vec![num(&[Some(1)]), text(&[Some("x")]), num(&[None]), num(&[Some(2)])]),
        table(&["I", "A", "P"], vec![num(&[Some(3)]), text(&[Some("y")]), num(&[Some(4)])]),
    ];
    let cols = names(&["A", "I", "P"]);
    let loaded = load_shards(&shards, &cols).unwrap();
    assert_eq!(loaded.len(), 2);
    for t in &loaded {
        assert_eq!(t.names, cols);
        assert_eq!(t.columns.len(), 3);
    }
    assert_eq!(num_cells(&loaded[0].columns[1]), vec![Some(2)]);
    assert_eq!(num_cells(&loaded[1].columns[2]), vec![Some(4)]);
}

#[test]
fn projecting_an_absent_column_names_it() {
    let t = table(&["A", "I"], vec![text(&[Some("x")]), num(&[Some(1)])]);
    match t.project(&names(&["A", "P"])) {
        Err(PipelineError::Schema(n)) => assert_eq!(n, "P"),
        other => panic!("unexpected {:?}", other),
    }
}

#[test]
fn concatenation_keeps_every_row_in_order() {
    let cols = names(&["A", "I", "P"]);
    let kinds = vec![ColumnKind::Text, ColumnKind::Numeric, ColumnKind::Numeric];
    let fact = stack_tables(&scenario_shards(), &cols, &kinds).unwrap();
    assert_eq!(fact.num_rows(), 3);
    assert_eq!(text_cells(&fact.columns[0]), vec![Some(s("x")), Some(s("x")), Some(s("y"))]);
    assert_eq!(num_cells(&fact.columns[1]), vec![Some(10), Some(20), Some(5)]);
}

#[test]
fn concatenation_of_no_shard_is_empty() {
    let cols = names(&["A", "I", "P"]);
    let kinds = vec![ColumnKind::Text, ColumnKind::Numeric, ColumnKind::Numeric];
    let fact = stack_tables(&Vec::new(), &cols, &kinds).unwrap();
    assert_eq!(fact.num_rows(), 0);
    assert_eq!(fact.names, cols);
    assert_eq!(num_cells(&fact.columns[2]), Vec::<Option<i64>>::new());
}

#[test]
fn concatenation_refuses_a_different_schema() {
    let cols = names(&["A", "I", "P"]);
    let kinds = vec![ColumnKind::Text, ColumnKind::Numeric, ColumnKind::Numeric];
    let mut shards = scenario_shards();
    shards.push(table(&["A", "P", "I"], vec![text(&[Some("z")]), num(&[Some(1)]), num(&[Some(2)])]));
    assert!(matches!(stack_tables(&shards, &cols, &kinds), Err(PipelineError::SchemaMismatch)));
}

#[test]
fn join_with_unique_keys_keeps_row_count() {
    let fact = table(
        &["A", "I"],
        vec![text(&[Some("x"), Some("y"), Some("z"), None]), num(&[Some(1), Some(2), Some(3), Some(4)])],
    );
    let keys = table(&["key", "extra"], vec![text(&[Some("y"), Some("x")]), num(&[Some(7), Some(8)])]);
    let j = left_join(&fact, &keys, &s("A"), &s("key")).unwrap();
    assert_eq!(j.num_rows(), fact.num_rows());
    assert_eq!(j.names, names(&["A", "I", "extra"]));
    assert_eq!(num_cells(&j.columns[2]), vec![Some(8), Some(7), None, None]);
}

#[test]
fn join_with_duplicate_keys_repeats_rows() {
    let fact = table(&["A", "I"], vec![text(&[Some("x"), Some("y")]), num(&[Some(1), Some(2)])]);
    let keys = table(
        &["key", "extra"],
        vec![text(&[Some("x"), Some("y"), Some("x")]), num(&[Some(7), Some(8), Some(9)])],
    );
    let j = left_join(&fact, &keys, &s("A"), &s("key")).unwrap();
    assert_eq!(j.num_rows(), 3);
    assert_eq!(text_cells(&j.columns[0]), vec![Some(s("x")), Some(s("x")), Some(s("y"))]);
    assert_eq!(num_cells(&j.columns[1]), vec![Some(1), Some(1), Some(2)]);
    assert_eq!(num_cells(&j.columns[2]), vec![Some(7), Some(9), Some(8)]);
}

#[test]
fn join_errors() {
    let fact = table(&["A", "extra"], vec![text(&[Some("x")]), num(&[Some(1)])]);
    let keys = table(&["key", "extra"], vec![text(&[Some("x")]), num(&[Some(2)])]);
    match left_join(&fact, &keys, &s("B"), &s("key")) {
        Err(PipelineError::Schema(n)) => assert_eq!(n, "B"),
        other => panic!("unexpected {:?}", other),
    }
    match left_join(&fact, &keys, &s("A"), &s("nokey")) {
        Err(PipelineError::Schema(n)) => assert_eq!(n, "nokey"),
        other => panic!("unexpected {:?}", other),
    }
    assert!(matches!(left_join(&fact, &keys, &s("extra"), &s("key")), Err(PipelineError::JoinKeyType)));
    match left_join(&fact, &keys, &s("A"), &s("key")) {
        Err(PipelineError::DuplicateColumn(n)) => assert_eq!(n, "extra"),
        other => panic!("unexpected {:?}", other),
    }
}

#[test]
fn null_values_are_skipped_in_a_group_mean() {
    let t = table(&["A", "V"], vec![text(&[Some("g"), Some("g"), Some("g")]), num(&[Some(2), None, Some(4)])]);
    let g = group_means(&t, &s("A")).unwrap();
    assert_eq!(g.keys, vec![Some(s("g"))]);
    let m = g.means[0][0];
    assert_eq!((m.sum, m.count), (6, 2));
    assert_eq!(m.sum / m.count as i128, 3);
}

#[test]
fn all_null_group_has_null_mean() {
    let t = table(
        &["A", "V"],
        vec![text(&[Some("g"), Some("h"), Some("g")]), num(&[None, Some(4), None])],
    );
    let g = group_means(&t, &s("A")).unwrap();
    assert_eq!(g.keys, vec![Some(s("g")), Some(s("h"))]);
    assert!(g.means[0][0].is_null());
    assert!(!g.means[0][1].is_null());
    let sm = summarize(&g).unwrap();
    assert!(ratio_is(&sm.values[0], 4, 1));
}

#[test]
fn null_group_value_forms_its_own_group() {
    let t = table(&["A", "V"], vec![text(&[None, Some("g"), None]), num(&[Some(1), Some(2), Some(3)])]);
    let g = group_means(&t, &s("A")).unwrap();
    assert_eq!(g.keys, vec![None, Some(s("g"))]);
    assert_eq!((g.means[0][0].sum, g.means[0][0].count), (4, 2));
}

#[test]
fn grouping_errors() {
    let t = table(&["A", "V"], vec![text(&[Some("g")]), num(&[Some(1)])]);
    match group_means(&t, &s("B")) {
        Err(PipelineError::Schema(n)) => assert_eq!(n, "B"),
        other => panic!("unexpected {:?}", other),
    }
    assert!(matches!(group_means(&t, &s("V")), Err(PipelineError::GroupKeyType)));
}

#[test]
fn eager_and_lazy_agree() {
    let cols = names(&["A", "I", "P"]);
    let eager = run(&scenario_shards(), &scenario_keys(), &s("A"), &s("A"), &s("key"), &cols).unwrap();
    let lazy = LazyQuery::scan(scenario_shards())
        .select(cols)
        .join(scenario_keys(), s("A"), s("key"))
        .group_mean(s("A"))
        .collect()
        .unwrap();
    assert_eq!(eager.names, lazy.names);
    for (a, b) in eager.values.iter().zip(lazy.values.iter()) {
        match (a, b) {
            (Some(x), Some(y)) => assert_eq!(x.num * y.den, y.num * x.den),
            (None, None) => {},
            _ => panic!("one mode gave null, the other did not"),
        }
    }
}

#[test]
fn summary_is_mean_of_means_not_global_mean() {
    let shards = vec![table(
        &["A", "V"],
        vec![
            text(&[Some("X"), Some("X"), Some("X"), Some("X"), Some("X"), Some("Y")]),
            num(&[Some(1), Some(1), Some(1), Some(1), Some(9), Some(5)]),
        ],
    )];
    let keys = vec![table(&["key"], vec![text(&[Some("X")])])];
    let sm = run(&shards, &keys, &s("A"), &s("A"), &s("key"), &names(&["A", "V"])).unwrap();
    let v = value(&sm, "V");
    assert!(ratio_is(v, 38, 10));
    assert!(!ratio_is(v, 18, 6));
    let r = v.unwrap();
    assert!((r.num as f64 / r.den as f64 - 3.8).abs() < 1e-12);
}

#[test]
fn repeated_runs_give_the_same_group_means() {
    let cols = names(&["A", "I", "P"]);
    let t1 = table(&["A", "I"], vec![text(&[Some("x"), Some("y"), Some("x")]), num(&[Some(1), Some(2), Some(3)])]);
    let t2 = table(&["A", "I"], vec![text(&[Some("y"), Some("x"), Some("x")]), num(&[Some(2), Some(3), Some(1)])]);
    let g1 = group_means(&t1, &s("A")).unwrap();
    let g2 = group_means(&t2, &s("A")).unwrap();
    assert_eq!(g1.keys, vec![Some(s("x")), Some(s("y"))]);
    assert_eq!(g2.keys, vec![Some(s("y")), Some(s("x"))]);
    assert_eq!((g1.means[0][0].sum, g1.means[0][0].count), (g2.means[0][1].sum, g2.means[0][1].count));
    assert_eq!((g1.means[0][1].sum, g1.means[0][1].count), (g2.means[0][0].sum, g2.means[0][0].count));
    let a = run(&scenario_shards(), &scenario_keys(), &s("A"), &s("A"), &s("key"), &cols).unwrap();
    let b = run(&scenario_shards(), &scenario_keys(), &s("A"), &s("A"), &s("key"), &cols).unwrap();
    assert_eq!(a.names, b.names);
    for (x, y) in a.values.iter().zip(b.values.iter()) {
        assert_eq!(x.map(|r| (r.num, r.den)), y.map(|r| (r.num, r.den)));
    }
}

#[test]
fn end_to_end_scenario() {
    let cols = names(&["A", "I", "P"]);
    let shards = scenario_shards();
    let loaded = load_shards(&shards, &projection_columns(&cols, &s("A"))).unwrap();
    let kinds = vec![ColumnKind::Text, ColumnKind::Numeric, ColumnKind::Numeric];
    let fact = stack_tables(&loaded, &cols, &kinds).unwrap();
    let joined = left_join(&fact, &scenario_keys()[0], &s("A"), &s("key")).unwrap();
    let g = group_means(&joined, &s("A")).unwrap();
    assert_eq!(g.keys, vec![Some(s("x")), Some(s("y"))]);
    assert_eq!(g.names, names(&["I", "P", "extra"]));
    let mean_is = |m: Mean, num: i128, den: i128| m.count > 0 && m.sum * den == num * m.count as i128;
    assert!(mean_is(g.means[0][0], 15, 1));
    assert!(mean_is(g.means[1][0], 2, 1));
    assert!(mean_is(g.means[2][0], 100, 1));
    assert!(mean_is(g.means[0][1], 5, 1));
    assert!(mean_is(g.means[1][1], 5, 1));
    assert!(g.means[2][1].is_null());
    let sm = run(&shards, &scenario_keys(), &s("A"), &s("A"), &s("key"), &cols).unwrap();
    assert_eq!(sm.names, names(&["I", "P", "extra"]));
    assert!(ratio_is(value(&sm, "I"), 10, 1));
    assert!(ratio_is(value(&sm, "P"), 7, 2));
    assert!(ratio_is(value(&sm, "extra"), 100, 1));
}

#[test]
fn first_key_table_candidate_wins() {
    let keys = vec![
        table(&["key"], vec![text(&[Some("a")])]),
        table(&["key"], vec![text(&[Some("b"), Some("c")])]),
    ];
    assert_eq!(resolve_key_table(&keys).unwrap().num_rows(), 1);
    assert!(matches!(resolve_key_table(&Vec::new()), Err(PipelineError::NotFound)));
}

#[test]
fn run_without_shards_or_key_table_is_not_found() {
    let cols = names(&["A", "I", "P"]);
    let none = run(&Vec::new(), &scenario_keys(), &s("A"), &s("A"), &s("key"), &cols);
    assert!(matches!(none, Err(PipelineError::NotFound)));
    let nokey = run(&scenario_shards(), &Vec::new(), &s("A"), &s("A"), &s("key"), &cols);
    assert!(matches!(nokey, Err(PipelineError::NotFound)));
}

#[test]
fn table_constructor_checks_shape() {
    assert!(matches!(
        Table::new(names(&["A", "B"]), vec![num(&[Some(1)]), num(&[Some(1), Some(2)])]),
        Err(PipelineError::LengthMismatch)
    ));
    assert!(matches!(Table::new(names(&["A"]), vec![]), Err(PipelineError::LengthMismatch)));
    match Table::new(names(&["A", "A"]), vec![num(&[Some(1)]), num(&[Some(2)])]) {
        Err(PipelineError::DuplicateColumn(n)) => assert_eq!(n, "A"),
        other => panic!("unexpected {:?}", other),
    }
    let e = Table::empty(&names(&["A", "I"]), &vec![ColumnKind::Text, ColumnKind::Numeric]);
    assert_eq!(e.num_rows(), 0);
}

#[test]
fn mean_of_means_exact_and_overflow() {
    let ms = vec![Mean { sum: 13, count: 5 }, Mean { sum: 0, count: 0 }, Mean { sum: 5, count: 1 }];
    assert!(ratio_is(&mean_of_group_means(&ms).unwrap(), 19, 5));
    assert!(mean_of_group_means(&vec![Mean { sum: 0, count: 0 }]).unwrap().is_none());
    let big = vec![Mean { sum: i128::MAX, count: 1 }, Mean { sum: 1, count: 2 }];
    assert!(matches!(mean_of_group_means(&big), Err(PipelineError::Overflow)));
}

#[test]
fn shard_order_does_not_change_the_summary() {
    let cols = names(&["A", "I", "P"]);
    let forward = run(&scenario_shards(), &scenario_keys(), &s("A"), &s("A"), &s("key"), &cols).unwrap();
    let mut reversed_shards = scenario_shards();
    reversed_shards.reverse();
    let reversed = run(&reversed_shards, &scenario_keys(), &s("A"), &s("A"), &s("key"), &cols).unwrap();
    assert_eq!(forward.names, reversed.names);
    for (a, b) in forward.values.iter().zip(reversed.values.iter()) {
        let (a, b) = (a.unwrap(), b.unwrap());
        assert_eq!(a.num * b.den, b.num * a.den);
    }
}

#[test]
fn join_on_numeric_keys_ignores_nulls() {
    let fact = table(&["K", "V"], vec![num(&[Some(1), None, Some(2)]), num(&[Some(10), Some(20), Some(30)])]);
    let keys = table(&["id", "w"], vec![num(&[None, Some(2), Some(1)]), num(&[Some(7), Some(8), Some(9)])]);
    let j = left_join(&fact, &keys, &s("K"), &s("id")).unwrap();
    assert_eq!(j.num_rows(), 3);
    assert_eq!(num_cells(&j.columns[2]), vec![Some(9), None, Some(8)]);
}

#[test]
fn many_groups_summarise_without_overflow() {
    let mut keys_col = Vec::new();
    let mut vals = Vec::new();
    for g in 0..20i64 {
        for r in 0..100i64 {
            keys_col.push(Some(format!("g{}", g)));
            vals.push(Some(g * 1000 + r));
        }
    }
    let shards = vec![Table::new(names(&["A", "V"]), vec![Column::Text(keys_col), Column::Numeric(vals)]).unwrap()];
    let keys = vec![table(&["key"], vec![text(&[Some("g0")])])];
    let sm = run(&shards, &keys, &s("A"), &s("A"), &s("key"), &names(&["A", "V"])).unwrap();
    // group g has mean g * 1000 + 49.5; their mean is 9500 + 49.5
    assert!(ratio_is(value(&sm, "V"), 19099, 2));
}

#[test]
fn large_groups_summarise_without_overflow() {
    let ms: Vec<Mean> = (1..=5i128).map(|g| Mean { sum: 3 * g * 100_000_000, count: 100_000_000 }).collect();
    assert!(ratio_is(&mean_of_group_means(&ms).unwrap(), 9, 1));
    let mixed: Vec<Mean> = (0..20i128).map(|g| Mean { sum: 7 * (100 + g), count: (100 + g) as usize }).collect();
    assert!(ratio_is(&mean_of_group_means(&mixed).unwrap(), 7, 1));
}

#[test]
fn run_reports_the_failing_stage() {
    let cols = names(&["A", "I", "P"]);
    let missing = vec![table(&["A", "I"], vec![text(&[Some("x")]), num(&[Some(1)])])];
    match run(&missing, &scenario_keys(), &s("A"), &s("A"), &s("key"), &cols) {
        Err(PipelineError::Schema(n)) => assert_eq!(n, "P"),
        other => panic!("unexpected {:?}", other),
    }
    let mut mixed = scenario_shards();
    mixed.push(table(&["A", "I", "P"], vec![text(&[Some("z")]), text(&[Some("1")]), num(&[Some(2)])]));
    assert!(matches!(
        run(&mixed, &scenario_keys(), &s("A"), &s("A"), &s("key"), &cols),
        Err(PipelineError::SchemaMismatch)
    ));
    let numeric_keys = vec![table(&["key"], vec![num(&[Some(1)])])];
    assert!(matches!(
        run(&scenario_shards(), &numeric_keys, &s("A"), &s("A"), &s("key"), &cols),
        Err(PipelineError::JoinKeyType)
    ));
    assert!(matches!(
        run(&scenario_shards(), &scenario_keys(), &s("I"), &s("A"), &s("key"), &cols),
        Err(PipelineError::GroupKeyType)
    ));
    let lazy = LazyQuery::scan(missing).select(cols).join(scenario_keys(), s("A"), s("key")).group_mean(s("A")).collect();
    match lazy {
        Err(PipelineError::Schema(n)) => assert_eq!(n, "P"),
        other => panic!("unexpected {:?}", other),
    }
}
