//! Dialects, statements and connection settings.

use gut_loader::database::{
    column_type_to_dm_ddl, column_type_to_mysql_ddl, column_type_to_oracle_ddl,
    column_type_to_pg_ddl, create_table_sql, dialect_of, dm_table_exists_sql, insert_sql,
    is_gauss_compatible, pg_binds_null, pg_cast_suffix, pg_connect_plan, qualified_table_name,
    dameng_supported, oracle_batches, row_count_sql, statement_ranges, safe_batch_size, unsupported_type_message, Dialect, DmLoader,
};
use gut_loader::models::{ColumnDefinition, ColumnType, DataRow, DatabaseConfig, FlgMetadata};

fn col(name: &str, t: ColumnType) -> ColumnDefinition {
    ColumnDefinition { index: 1, name: name.to_string(), data_type: t, start_pos: 1, end_pos: 1 }
}

fn meta() -> FlgMetadata {
    FlgMetadata {
        filename: String::new(),
        file_size: 0,
        row_count: 0,
        created_at: String::new(),
        sql: String::new(),
        row_length: 0,
        column_count: 2,
        columns: vec![col("a", ColumnType::Varchar(10)), col("b", ColumnType::Int(4))],
        table_name: "t".to_string(),
    }
}

fn db(db_type: &str, schema: Option<&str>) -> DatabaseConfig {
    DatabaseConfig {
        db_type: db_type.to_string(),
        host: "h".to_string(),
        port: 5236,
        database: "d".to_string(),
        username: "u".to_string(),
        password: "a}b".to_string(),
        schema: schema.map(|s| s.to_string()),
    }
}

#[test]
fn ddl_types_per_dialect() {
    let v = col("v", ColumnType::Varchar(50));
    let d = col("d", ColumnType::Decimal(12, 2));
    let i = col("i", ColumnType::Int(10));
    assert_eq!(column_type_to_mysql_ddl(&v), "VARCHAR(50)");
    assert_eq!(column_type_to_mysql_ddl(&d), "DECIMAL(12,2)");
    assert_eq!(column_type_to_mysql_ddl(&i), "BIGINT");
    assert_eq!(column_type_to_pg_ddl(&d), "NUMERIC(12,2)");
    assert_eq!(column_type_to_pg_ddl(&i), "BIGINT");
    assert_eq!(column_type_to_oracle_ddl(&v), "VARCHAR2(50)");
    assert_eq!(column_type_to_oracle_ddl(&d), "NUMBER(12,2)");
    assert_eq!(column_type_to_oracle_ddl(&i), "NUMBER(19)");
    assert_eq!(column_type_to_dm_ddl(&d), "DECIMAL(12,2)");
}

#[test]
fn batch_sizes() {
    assert_eq!(safe_batch_size(0, 1000), 1000);
    assert_eq!(safe_batch_size(6, 1000), 1000);
    assert_eq!(safe_batch_size(100, 1000), 600);
    assert_eq!(safe_batch_size(70000, 1000), 1);
    assert_eq!(safe_batch_size(5, 0), 1);
}

#[test]
fn statements() {
    let m = meta();
    assert_eq!(
        create_table_sql(Dialect::MySql, &None, &m),
        "CREATE TABLE IF NOT EXISTS `t` (\n  `a` VARCHAR(10),\n  `b` BIGINT\n)"
    );
    assert_eq!(
        create_table_sql(Dialect::Oracle, &Some("S".to_string()), &m),
        "CREATE TABLE \"S\".\"t\" (\n  \"a\" VARCHAR2(10),\n  \"b\" NUMBER(19)\n)"
    );
    assert_eq!(insert_sql(Dialect::MySql, &None, "t", &m, 2), "INSERT INTO `t` (`a`,`b`) VALUES (?,?),(?,?)");
    assert_eq!(
        insert_sql(Dialect::Postgres, &Some("s".to_string()), "t", &m, 2),
        "INSERT INTO \"s\".\"t\" (\"a\",\"b\") VALUES ($1::TEXT,$2::BIGINT),($3::TEXT,$4::BIGINT)"
    );
    assert_eq!(
        insert_sql(Dialect::Oracle, &None, "t", &m, 1),
        "INSERT INTO \"t\" (\"a\",\"b\") VALUES (:1,TO_NUMBER(NULLIF(:2, '')))"
    );
    assert_eq!(insert_sql(Dialect::Dameng, &None, "t", &m, 1), "INSERT INTO \"t\" (\"a\",\"b\") VALUES (?,?)");
    assert_eq!(row_count_sql(Dialect::MySql, &None, "t"), "SELECT COUNT(*) as cnt FROM `t`");
    assert_eq!(row_count_sql(Dialect::Oracle, &None, "t"), "SELECT COUNT(*) FROM \"t\"");
    assert_eq!(dm_table_exists_sql("t"), "SELECT COUNT(*) FROM user_tables WHERE table_name = UPPER('t')");
    assert_eq!(qualified_table_name(&Some("s".to_string()), "t"), "\"s\".\"t\"");
    assert_eq!(pg_cast_suffix(&ColumnType::Decimal(1, 1)), "::NUMERIC");
}

#[test]
fn numeric_blanks_are_null_in_postgres() {
    assert!(pg_binds_null(ColumnType::Int(3), "   "));
    assert!(!pg_binds_null(ColumnType::Varchar(3), ""));
    assert!(!pg_binds_null(ColumnType::Decimal(3, 1), " 1.5"));
}

#[test]
fn dialects_of_database_types() {
    assert_eq!(dialect_of("MySQL"), Some(Dialect::MySql));
    assert_eq!(dialect_of("tdsql"), Some(Dialect::MySql));
    assert_eq!(dialect_of("OpenGauss"), Some(Dialect::Postgres));
    assert_eq!(dialect_of("oracle"), Some(Dialect::Oracle));
    assert_eq!(dialect_of("DM"), Some(Dialect::Dameng));
    assert_eq!(dialect_of("sqlite"), None);
    assert_eq!(unsupported_type_message("sqlite"), "Unsupported database type: sqlite");
    assert!(is_gauss_compatible("GaussDB"));
    assert!(!is_gauss_compatible("postgresql"));
}

#[test]
fn opengauss_connect_options_disable_incompatible_defaults_and_ignore_empty_schema() {
    let plan = pg_connect_plan(&db("opengauss", Some("   ")));
    assert!(plan.gauss_compatible);
    assert_eq!(plan.search_path, None);
}

#[test]
fn gaussdb_connect_options_share_opengauss_compatibility_defaults() {
    let plan = pg_connect_plan(&db("gaussdb", Some("raw")));
    assert!(plan.gauss_compatible);
    assert_eq!(plan.search_path.as_deref(), Some("raw"));
}

#[test]
fn postgres_connect_options_keep_schema_search_path() {
    let plan = pg_connect_plan(&db("postgresql", Some("public")));
    assert!(!plan.gauss_compatible);
    assert_eq!(plan.search_path.as_deref(), Some("public"));
}

#[test]
fn dameng_connection_string_escapes_braces() {
    let l = DmLoader::with_driver("DM8 ODBC DRIVER", &db("dameng", None));
    assert_eq!(
        l.connection_string(),
        "Driver={DM8 ODBC DRIVER};Server=h;TCP_PORT=5236;DATABASE=d;UID=u;PWD={a}}b}"
    );
}

fn row_of(n: usize) -> DataRow {
    DataRow { values: vec!["v".to_string(); n] }
}

#[test]
fn oracle_batches_skip_mismatched_rows_and_empty_pieces() {
    assert!(oracle_batches(&Vec::new(), 3).is_empty());
    let small = vec![row_of(2), row_of(3), row_of(2)];
    assert_eq!(oracle_batches(&small, 2), vec![vec![0, 2]]);
    // 20000 columns allow 3 rows per statement.
    assert_eq!(safe_batch_size(20000, 7), 3);
    let wide: Vec<DataRow> = (0..7)
        .map(|i| if i == 0 || i == 2 || i == 6 { row_of(20000) } else { row_of(1) })
        .collect();
    assert_eq!(oracle_batches(&wide, 20000), vec![vec![0, 2], vec![6]]);
}

#[test]
fn dameng_platforms() {
    assert!(dameng_supported("windows", "x86_64"));
    assert!(dameng_supported("linux", "x86_64"));
    assert!(dameng_supported("linux", "aarch64"));
    assert!(!dameng_supported("macos", "aarch64"));
    assert!(!dameng_supported("macos", "x86_64"));
    assert!(!dameng_supported("windows", "aarch64"));
}

#[test]
fn statement_ranges_cut_by_safe_batch_size() {
    assert!(statement_ranges(0, 3).is_empty());
    assert_eq!(statement_ranges(5, 2), vec![(0, 5)]);
    assert_eq!(statement_ranges(7, 20000), vec![(0, 3), (3, 6), (6, 7)]);
    assert_eq!(statement_ranges(6, 20000), vec![(0, 3), (3, 6)]);
}
