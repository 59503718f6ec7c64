use asm_engine::experiments::{
    empty_table, grid_combinations, job_seed, registry_query, sqlite_select_sql, table_columns, Query, Registry,
    Scheduler, ABLATION_SEED_STRIDE, SWEEP_SEED_STRIDE,
};

fn record(plan: &str, job: &str) -> Vec<String> {
    vec![
        "1970-01-01T00:00:00Z".to_string(),
        "unknown".to_string(),
        plan.to_string(),
        "hash".to_string(),
        job.to_string(),
        "{}".to_string(),
        "{}".to_string(),
    ]
}

#[test]
fn registry_backend_follows_extension() {
    assert_eq!(Registry::from_path("runs/registry.sqlite".into()), Registry::Sqlite("runs/registry.sqlite".into()));
    assert_eq!(Registry::from_path("runs/registry.db".into()), Registry::Sqlite("runs/registry.db".into()));
    assert_eq!(Registry::from_path("runs/registry.csv".into()), Registry::Csv("runs/registry.csv".into()));
    assert_eq!(Registry::from_path("runs/registry".into()), Registry::Csv("runs/registry".into()));
    assert_eq!(Registry::for_extension("x".into(), Some("db".into())), Registry::Sqlite("x".into()));
    assert_eq!(Registry::for_extension("x".into(), None), Registry::Csv("x".into()));
}

#[test]
fn bare_file_names_pick_the_backend_by_extension() {
    assert_eq!(Registry::from_path("runs.sqlite".into()), Registry::Sqlite("runs.sqlite".into()));
    assert_eq!(Registry::from_path("runs.v1.db".into()), Registry::Sqlite("runs.v1.db".into()));
    assert_eq!(Registry::from_path(".db".into()), Registry::Csv(".db".into()));
    assert_eq!(Registry::from_path("runs.db.csv".into()), Registry::Csv("runs.db.csv".into()));
    assert_eq!(Registry::from_path("runs.".into()), Registry::Csv("runs.".into()));
}

#[test]
fn portable_paths_pick_the_backend_by_file_name() {
    assert_eq!(Registry::from_path("runs/reg.db".into()), Registry::Sqlite("runs/reg.db".into()));
    assert_eq!(Registry::from_path("runs/reg.db/".into()), Registry::Sqlite("runs/reg.db/".into()));
    assert_eq!(Registry::from_path("runs/reg.sqlite/.".into()), Registry::Sqlite("runs/reg.sqlite/.".into()));
    assert_eq!(Registry::from_path("runs.db/reg".into()), Registry::Csv("runs.db/reg".into()));
    assert_eq!(Registry::from_path("runs/.db".into()), Registry::Csv("runs/.db".into()));
    assert_eq!(Registry::from_path("runs/reg.SQLITE".into()), Registry::Csv("runs/reg.SQLITE".into()));
    assert_eq!(Registry::from_path("runs/..".into()), Registry::Csv("runs/..".into()));
}

#[test]
fn csv_queries_filter_then_limit() {
    let registry = Registry::Csv("r.csv".into());
    let records = vec![record("a", "0"), record("b", "0"), record("a", "1"), record("a", "2")];
    let all = registry_query(&registry, &Query::default(), Some(records.clone()));
    assert_eq!(all.rows.len(), 4);
    assert_eq!(all.columns, table_columns());
    let q = Query { plan_name: Some("a".into()), limit: Some(2) };
    let table = registry_query(&registry, &q, Some(records.clone()));
    assert_eq!(table.rows, vec![record("a", "0"), record("a", "1")]);
    let zero = Query { plan_name: Some("b".into()), limit: Some(0) };
    assert_eq!(registry_query(&registry, &zero, Some(records.clone())).rows, vec![record("b", "0")]);
    let missing = registry_query(&registry, &q, None);
    assert_eq!(missing, empty_table());
    let sqlite = Registry::Sqlite("r.sqlite".into());
    let rows = registry_query(&sqlite, &q, Some(records));
    assert_eq!(rows.rows, vec![record("a", "0"), record("b", "0")]);
}

#[test]
fn table_has_registry_columns() {
    assert_eq!(
        table_columns(),
        vec!["date", "commit", "plan_name", "plan_hash", "job_id", "params", "metrics"]
    );
    assert!(empty_table().rows.is_empty());
}

#[test]
fn sqlite_statement_text() {
    assert_eq!(
        sqlite_select_sql(&Query::default()),
        "SELECT date, \"commit\", plan_name, plan_hash, job_id, params, metrics FROM runs ORDER BY date, plan_name, job_id"
    );
    let q = Query { plan_name: Some("p".into()), limit: Some(25) };
    assert_eq!(
        sqlite_select_sql(&q),
        "SELECT date, \"commit\", plan_name, plan_hash, job_id, params, metrics FROM runs WHERE plan_name = ?1 ORDER BY date, plan_name, job_id LIMIT 25"
    );
}

#[test]
fn scheduler_and_job_seeds() {
    assert_eq!(Scheduler::default().parallelism, 1);
    assert_eq!(Scheduler::default_parallelism(), 1);
    assert_eq!(job_seed(0, 0, SWEEP_SEED_STRIDE), 0x9e37_79b1_85eb_ca87);
    assert_eq!(job_seed(5, 1, SWEEP_SEED_STRIDE), 5 ^ 2u64.wrapping_mul(0x9e37_79b1_85eb_ca87));
    assert_eq!(job_seed(42, 3, ABLATION_SEED_STRIDE), 42 ^ 4u64.wrapping_mul(0x6a09_e667_f3bc_c908));
}

#[test]
fn grid_combinations_enumerate_in_order() {
    let tuples = grid_combinations(&[2, 3]);
    let expected: Vec<Vec<u64>> = vec![
        vec![0, 0],
        vec![0, 1],
        vec![0, 2],
        vec![1, 0],
        vec![1, 1],
        vec![1, 2],
    ];
    assert_eq!(tuples, expected);
}

#[test]
fn grid_combinations_edge_cases() {
    let no_params: Vec<Vec<u64>> = vec![vec![]];
    assert_eq!(grid_combinations(&[]), no_params);
    assert!(grid_combinations(&[2, 0]).is_empty());
    assert_eq!(grid_combinations(&[1, 1, 2]), vec![vec![0, 0, 0], vec![0, 0, 1]]);
}
