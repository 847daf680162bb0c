use streamrel::aggregate::{Accumulator, Aggregate, Sum, SumAccumulator};
use streamrel::groupby::GroupBy;
use streamrel::filter::Filter;
use streamrel::key::create_key;
use streamrel::node::{ExecutionContext, Node};
use streamrel::projection::Projection;
use streamrel::source::CSVSource;
use streamrel::trigger::CountingTrigger;
use streamrel::types::{
    Column, DataType, Error, Field, GroupByScalar, RecordBatch, ScalarValue, Schema,
};

fn cats_schema() -> Schema {
    Schema::new(vec![
        Field::new("name".to_string(), DataType::Utf8),
        Field::new("livesleft".to_string(), DataType::Int64),
    ])
}

fn cats_source(names: Vec<&str>, lives: Vec<i64>, batch_size: usize) -> CSVSource {
    let names: Vec<String> = names.into_iter().map(|s| s.to_string()).collect();
    CSVSource::new(
        cats_schema(),
        vec![Column::Utf8(names), Column::Int64(lives)],
        batch_size,
    )
}

fn string_col(batch: &RecordBatch, i: usize) -> Vec<String> {
    match &batch.columns[i] {
        Column::Utf8(v) => v.clone(),
        _ => panic!("expected a string column"),
    }
}

fn int_col(batch: &RecordBatch, i: usize) -> Vec<i64> {
    match &batch.columns[i] {
        Column::Int64(v) => v.clone(),
        _ => panic!("expected an int64 column"),
    }
}

fn bool_col(batch: &RecordBatch, i: usize) -> Vec<bool> {
    match &batch.columns[i] {
        Column::Boolean(v) => v.clone(),
        _ => panic!("expected a boolean column"),
    }
}

#[test]
fn source_chunks_and_appends_retraction() {
    let src = cats_source(vec!["a", "b", "c", "d", "e"], vec![1, 2, 3, 4, 5], 2);
    let schema = src.schema().ok().unwrap();
    assert_eq!(schema.fields.len(), 3);
    assert_eq!(schema.fields[2].name, "retraction");
    assert!(schema.fields[2].data_type == DataType::Boolean);
    let batches = src.run(&ExecutionContext {}).ok().unwrap();
    assert_eq!(batches.len(), 3);
    assert_eq!(batches[0].num_rows(), 2);
    assert_eq!(batches[1].num_rows(), 2);
    assert_eq!(batches[2].num_rows(), 1);
    for b in &batches {
        let flags = bool_col(b, 2);
        assert!(flags.iter().all(|f| !*f));
    }
    assert_eq!(string_col(&batches[2], 0), vec!["e".to_string()]);
    assert_eq!(int_col(&batches[2], 1), vec![5]);
}

#[test]
fn source_rejects_mismatched_columns() {
    let src = CSVSource::new(
        cats_schema(),
        vec![Column::Int64(vec![1]), Column::Int64(vec![1])],
        8192,
    );
    assert!(matches!(src.schema(), Err(Error::SchemaError(_))));
    assert!(matches!(src.run(&ExecutionContext {}), Err(Error::SchemaError(_))));
}

#[test]
fn projection_full_schema_is_identity() {
    let src = cats_source(vec!["a", "b", "c"], vec![1, 2, 3], 8192);
    let direct = src.run(&ExecutionContext {}).ok().unwrap();
    let src2 = cats_source(vec!["a", "b", "c"], vec![1, 2, 3], 8192);
    let proj = Projection::new(
        vec!["name".to_string(), "livesleft".to_string(), "retraction".to_string()],
        src2,
    );
    let projected = proj.run(&ExecutionContext {}).ok().unwrap();
    assert_eq!(projected.len(), direct.len());
    for (a, b) in projected.iter().zip(direct.iter()) {
        assert_eq!(string_col(a, 0), string_col(b, 0));
        assert_eq!(int_col(a, 1), int_col(b, 1));
        assert_eq!(bool_col(a, 2), bool_col(b, 2));
    }
}

#[test]
fn projection_subset_and_reorder() {
    let src = cats_source(vec!["a", "b"], vec![7, 9], 8192);
    let proj = Projection::new(vec!["livesleft".to_string(), "name".to_string()], src);
    let schema = proj.schema().ok().unwrap();
    assert_eq!(schema.fields[0].name, "livesleft");
    assert_eq!(schema.fields[1].name, "name");
    let batches = proj.run(&ExecutionContext {}).ok().unwrap();
    assert_eq!(int_col(&batches[0], 0), vec![7, 9]);
    assert_eq!(string_col(&batches[0], 1), vec!["a".to_string(), "b".to_string()]);
}

#[test]
fn projection_unknown_field_is_schema_error() {
    let src = cats_source(vec!["a"], vec![1], 8192);
    let proj = Projection::new(vec!["nosuch".to_string()], src);
    assert!(matches!(proj.schema(), Err(Error::SchemaError(_))));
    assert!(matches!(proj.run(&ExecutionContext {}), Err(Error::SchemaError(_))));
}

fn flagged_source(flags: Vec<bool>) -> CSVSource {
    let n = flags.len();
    CSVSource::new(
        Schema::new(vec![
            Field::new("id".to_string(), DataType::Int64),
            Field::new("keep".to_string(), DataType::Boolean),
        ]),
        vec![
            Column::Int64((0..n as i64).collect()),
            Column::Boolean(flags),
        ],
        8192,
    )
}

#[test]
fn filter_keeps_rows_where_predicate_true() {
    let f = Filter::new("keep".to_string(), flagged_source(vec![true, false, true, false]));
    let batches = f.run(&ExecutionContext {}).ok().unwrap();
    assert_eq!(batches[0].num_rows(), 2);
    assert_eq!(int_col(&batches[0], 0), vec![0, 2]);
    assert_eq!(bool_col(&batches[0], 1), vec![true, true]);
}

#[test]
fn filter_all_true_is_identity_on_rows() {
    let f = Filter::new("keep".to_string(), flagged_source(vec![true, true, true]));
    let batches = f.run(&ExecutionContext {}).ok().unwrap();
    assert_eq!(batches[0].num_rows(), 3);
    assert_eq!(int_col(&batches[0], 0), vec![0, 1, 2]);
}

#[test]
fn filter_unknown_or_non_boolean_field_is_schema_error() {
    let f = Filter::new("nosuch".to_string(), flagged_source(vec![true]));
    assert!(matches!(f.run(&ExecutionContext {}), Err(Error::SchemaError(_))));
    let f2 = Filter::new("id".to_string(), flagged_source(vec![true]));
    assert!(matches!(f2.run(&ExecutionContext {}), Err(Error::SchemaError(_))));
}

#[test]
fn counting_trigger_fires_at_threshold_and_resets() {
    let mut t = CountingTrigger::new(vec![DataType::Utf8], 2);
    // keys a, a, b: a reaches the threshold, b stays pending
    t.observe(&vec![Column::Utf8(vec![
        "a".to_string(),
        "a".to_string(),
        "b".to_string(),
    ])]);
    let ready = t.drain_ready();
    assert_eq!(ready.len(), 1);
    match &ready[0] {
        Column::Utf8(v) => assert_eq!(v.clone(), vec!["a".to_string()]),
        _ => panic!("expected a string key column"),
    }
    // one more b makes b ready; a needs two fresh observations
    t.observe(&vec![Column::Utf8(vec!["b".to_string(), "a".to_string()])]);
    let ready2 = t.drain_ready();
    match &ready2[0] {
        Column::Utf8(v) => assert_eq!(v.clone(), vec!["b".to_string()]),
        _ => panic!("expected a string key column"),
    }
}

#[test]
fn counting_trigger_under_threshold_never_fires() {
    let mut t = CountingTrigger::new(vec![DataType::Int64], 3);
    t.observe(&vec![Column::Int64(vec![5, 5])]);
    let ready = t.drain_ready();
    assert_eq!(ready[0].len(), 0);
}

#[test]
fn sum_accumulator_adds_and_retracts() {
    let mut acc = SumAccumulator { sum: 0, count: 0 };
    assert!(acc.add(ScalarValue::Int64(4), ScalarValue::Boolean(false)));
    assert!(acc.add(ScalarValue::Int64(6), ScalarValue::Boolean(false)));
    assert!(matches!(acc.trigger(), ScalarValue::Int64(10)));
    assert!(acc.add(ScalarValue::Int64(4), ScalarValue::Boolean(true)));
    assert!(matches!(acc.trigger(), ScalarValue::Int64(6)));
    // retracting the last contributing row reports the group dead
    assert!(!acc.add(ScalarValue::Int64(6), ScalarValue::Boolean(true)));
}

#[test]
fn sum_output_type_is_int64_only() {
    let s = Sum {};
    assert!(matches!(s.output_type(&DataType::Int64), Ok(DataType::Int64)));
    assert!(matches!(s.output_type(&DataType::Utf8), Err(Error::TypeError(_))));
}

fn sum_by_name(src: CSVSource) -> GroupBy<CSVSource, Sum> {
    GroupBy::new(
        vec!["name".to_string()],
        vec!["livesleft".to_string()],
        vec![Sum {}],
        vec!["livesleft".to_string()],
        src,
    )
}

#[test]
fn groupby_schema_is_keys_aggregates_retraction() {
    let g = sum_by_name(cats_source(vec!["a"], vec![1], 8192));
    let schema = g.schema().ok().unwrap();
    assert_eq!(schema.fields.len(), 3);
    assert_eq!(schema.fields[0].name, "name");
    assert!(schema.fields[0].data_type == DataType::Utf8);
    assert_eq!(schema.fields[1].name, "livesleft");
    assert!(schema.fields[1].data_type == DataType::Int64);
    assert_eq!(schema.fields[2].name, "retraction");
    assert!(schema.fields[2].data_type == DataType::Boolean);
}

#[test]
fn groupby_below_trigger_count_produces_nothing() {
    // 50 observations of one key stay below the trigger threshold of 100
    let g = sum_by_name(cats_source(vec!["a"; 50], vec![1; 50], 8192));
    let batches = g.run(&ExecutionContext {}).ok().unwrap();
    assert_eq!(batches.len(), 0);
}

#[test]
fn groupby_emits_sum_at_trigger_count() {
    // key a is observed 100 times and emits; b stays pending at 50
    let mut names = vec!["a"; 100];
    names.extend(vec!["b"; 50]);
    let mut lives = vec![2i64; 100];
    lives.extend(vec![5i64; 50]);
    let g = sum_by_name(cats_source(names, lives, 8192));
    let batches = g.run(&ExecutionContext {}).ok().unwrap();
    assert_eq!(batches.len(), 1);
    assert_eq!(batches[0].num_rows(), 1);
    assert_eq!(string_col(&batches[0], 0), vec!["a".to_string()]);
    assert_eq!(int_col(&batches[0], 1), vec![200]);
    assert_eq!(bool_col(&batches[0], 2), vec![false]);
}

#[test]
fn groupby_retracts_before_reemitting() {
    // two batches of 100 rows each for key a: the second emission first
    // withdraws the old sum, then asserts the new one
    let g = sum_by_name(cats_source(vec!["a"; 200], vec![1i64; 200], 100));
    let batches = g.run(&ExecutionContext {}).ok().unwrap();
    assert_eq!(batches.len(), 2);
    assert_eq!(int_col(&batches[0], 1), vec![100]);
    assert_eq!(bool_col(&batches[0], 2), vec![false]);
    assert_eq!(string_col(&batches[1], 0), vec!["a".to_string(), "a".to_string()]);
    assert_eq!(int_col(&batches[1], 1), vec![100, 200]);
    assert_eq!(bool_col(&batches[1], 2), vec![true, false]);
}

#[test]
fn groupby_dead_group_gets_retraction_and_no_replacement() {
    // batch 1 asserts 100 rows for a; batch 2 withdraws all of them; the
    // next emission is a single retraction with no new value
    let src = CSVSource::new(
        Schema::new(vec![
            Field::new("name".to_string(), DataType::Utf8),
            Field::new("livesleft".to_string(), DataType::Int64),
            Field::new("retraction".to_string(), DataType::Boolean),
        ]),
        vec![
            Column::Utf8(vec!["a".to_string(); 200]),
            Column::Int64(vec![1i64; 200]),
            Column::Boolean(
                (0..200).map(|i| i >= 100).collect(),
            ),
        ],
        100,
    );
    // feed the flagged stream straight into the group-by via projection of
    // all fields, so the second batch carries retraction = true
    let g = sum_by_name_with_source(src);
    let batches = g.run(&ExecutionContext {}).ok().unwrap();
    assert_eq!(batches.len(), 2);
    assert_eq!(int_col(&batches[0], 1), vec![100]);
    assert_eq!(bool_col(&batches[0], 2), vec![false]);
    assert_eq!(batches[1].num_rows(), 1);
    assert_eq!(int_col(&batches[1], 1), vec![100]);
    assert_eq!(bool_col(&batches[1], 2), vec![true]);
}

fn sum_by_name_with_source(src: CSVSource) -> GroupBy<Projection<CSVSource>, Sum> {
    // drop the source's own appended retraction column, keeping the
    // explicit one in the data
    let proj = Projection::new(
        vec!["name".to_string(), "livesleft".to_string(), "retraction".to_string()],
        src,
    );
    GroupBy::new(
        vec!["name".to_string()],
        vec!["livesleft".to_string()],
        vec![Sum {}],
        vec!["livesleft".to_string()],
        proj,
    )
}

#[test]
fn groupby_snapshot_forgotten_after_dead_group() {
    // after a group dies, the next emission has no retraction row
    let mut names = vec!["a".to_string(); 200];
    names.extend(vec!["a".to_string(); 100]);
    let mut lives = vec![1i64; 200];
    lives.extend(vec![2i64; 100]);
    let mut flags: Vec<bool> = (0..200).map(|i| i >= 100).collect();
    flags.extend(vec![false; 100]);
    let src = CSVSource::new(
        Schema::new(vec![
            Field::new("name".to_string(), DataType::Utf8),
            Field::new("livesleft".to_string(), DataType::Int64),
            Field::new("retraction".to_string(), DataType::Boolean),
        ]),
        vec![Column::Utf8(names), Column::Int64(lives), Column::Boolean(flags)],
        100,
    );
    let g = sum_by_name_with_source(src);
    let batches = g.run(&ExecutionContext {}).ok().unwrap();
    assert_eq!(batches.len(), 3);
    // the third emission asserts the fresh sum without withdrawing anything
    assert_eq!(batches[2].num_rows(), 1);
    assert_eq!(int_col(&batches[2], 1), vec![200]);
    assert_eq!(bool_col(&batches[2], 2), vec![false]);
}

#[test]
fn groupby_unknown_field_is_schema_error() {
    let g = GroupBy::new(
        vec!["nosuch".to_string()],
        vec!["livesleft".to_string()],
        vec![Sum {}],
        vec!["livesleft".to_string()],
        cats_source(vec!["a"], vec![1], 8192),
    );
    assert!(matches!(g.schema(), Err(Error::SchemaError(_))));
}

#[test]
fn groupby_boolean_key_is_type_error() {
    let g = GroupBy::new(
        vec!["keep".to_string()],
        vec!["id".to_string()],
        vec![Sum {}],
        vec!["total".to_string()],
        flagged_source(vec![true]),
    );
    assert!(matches!(g.run(&ExecutionContext {}), Err(Error::TypeError(_))));
}

#[test]
fn groupby_non_integer_aggregate_is_type_error() {
    let g = GroupBy::new(
        vec!["livesleft".to_string()],
        vec!["name".to_string()],
        vec![Sum {}],
        vec!["name".to_string()],
        cats_source(vec!["a"], vec![1], 8192),
    );
    assert!(matches!(g.run(&ExecutionContext {}), Err(Error::TypeError(_))));
}

#[test]
fn projecting_groupby_output_keeps_retractions() {
    let g = sum_by_name(cats_source(vec!["a"; 200], vec![1i64; 200], 100));
    let proj = Projection::new(vec!["name".to_string(), "retraction".to_string()], g);
    let batches = proj.run(&ExecutionContext {}).ok().unwrap();
    assert_eq!(batches.len(), 2);
    assert_eq!(string_col(&batches[1], 0), vec!["a".to_string(), "a".to_string()]);
    assert_eq!(bool_col(&batches[1], 1), vec![true, false]);
}

#[test]
fn record_batch_try_new_checks_conformance() {
    let schema = cats_schema();
    // too few columns
    let r = RecordBatch::try_new(
        Schema::new(vec![
            Field::new("name".to_string(), DataType::Utf8),
            Field::new("livesleft".to_string(), DataType::Int64),
        ]),
        vec![Column::Utf8(vec!["a".to_string()])],
    );
    assert!(matches!(r, Err(Error::InvariantError(_))));
    // wrong column type
    let r2 = RecordBatch::try_new(
        Schema::new(vec![Field::new("name".to_string(), DataType::Utf8)]),
        vec![Column::Int64(vec![1])],
    );
    assert!(matches!(r2, Err(Error::SchemaError(_))));
    // unequal lengths
    let r3 = RecordBatch::try_new(
        schema,
        vec![
            Column::Utf8(vec!["a".to_string()]),
            Column::Int64(vec![1, 2]),
        ],
    );
    assert!(matches!(r3, Err(Error::InvariantError(_))));
}

#[test]
fn create_key_reads_one_row_and_rejects_booleans() {
    let cols = vec![
        Column::Utf8(vec!["x".to_string(), "y".to_string()]),
        Column::Int64(vec![10, 20]),
    ];
    let mut key = vec![GroupByScalar::Int64(0), GroupByScalar::Int64(0)];
    assert!(create_key(&cols, 1, &mut key).is_ok());
    assert!(matches!(&key[0], GroupByScalar::Utf8(s) if s == "y"));
    assert!(matches!(key[1], GroupByScalar::Int64(20)));
    let bad = vec![Column::Boolean(vec![true])];
    let mut key2 = vec![GroupByScalar::Int64(0)];
    assert!(matches!(create_key(&bad, 0, &mut key2), Err(Error::TypeError(_))));
}
