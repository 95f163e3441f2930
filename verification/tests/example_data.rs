//! Tests on a set of five example tables, built here in memory: their `.flg`
//! files, their gzip-compressed `.dat` files and a directory listing.

use std::io::{Read, Write};

use flate2::read::GzDecoder;
use flate2::write::GzEncoder;
use flate2::Compression;

use gut_loader::loader::line_has_content;
use gut_loader::models::{ColumnType, DataRow, FlgMetadata, GutFilePair};
use gut_loader::parser::dat::{parse_dat, parse_dat_streaming};
use gut_loader::parser::flg::parse_flg;
use gut_loader::parser::{scan_directory, DirEntry};
use gut_loader::validator::file::{
    begin_file_checks, check_column_count, check_directory_exists, check_file_pairs_found,
    check_filename_format, check_flg_parseable, check_gzip_integrity, check_row_count,
    check_single_file_pair, DatProbe,
};
use gut_loader::validator::positions::check_column_positions;

const DIR: &str = "example_data";

struct Table {
    name: &'static str,
    rows: usize,
    cols: Vec<(&'static str, &'static str, usize)>,
}

fn tables() -> Vec<Table> {
    vec![
        Table {
            name: "employee",
            rows: 800,
            cols: vec![
                ("EMP_NO", "VARCHAR(20)", 20),
                ("EMP_NAME", "VARCHAR(50)", 50),
                ("DEPARTMENT", "VARCHAR(50)", 50),
                ("POSITION", "VARCHAR(50)", 50),
                ("SALARY", "DECIMAL(12,2)", 12),
                ("HIRE_DATE", "VARCHAR(30)", 30),
            ],
        },
        Table {
            name: "order",
            rows: 3000,
            cols: vec![
                ("ORDER_NO", "VARCHAR(30)", 30),
                ("CUSTOMER", "VARCHAR(50)", 50),
                ("PRODUCT", "VARCHAR(50)", 50),
                ("QUANTITY", "INT(10)", 10),
                ("AMOUNT", "DECIMAL(15,2)", 15),
                ("ORDER_DATE", "VARCHAR(50)", 50),
            ],
        },
        Table {
            name: "product",
            rows: 1500,
            cols: vec![
                ("PRODUCT_ID", "VARCHAR(20)", 20),
                ("PRODUCT_NAME", "VARCHAR(60)", 60),
                ("PRICE", "DECIMAL(10,2)", 10),
                ("STOCK", "INT(10)", 10),
            ],
        },
        Table {
            name: "transaction",
            rows: 5000,
            cols: vec![
                ("TXN_ID", "VARCHAR(30)", 30),
                ("ACCOUNT", "VARCHAR(30)", 30),
                ("AMOUNT", "DECIMAL(18,2)", 18),
                ("TXN_TIME", "VARCHAR(22)", 22),
            ],
        },
        Table {
            name: "user",
            rows: 2000,
            cols: vec![
                ("USER_ID", "VARCHAR(20)", 20),
                ("USER_NAME", "VARCHAR(50)", 50),
                ("EMAIL", "VARCHAR(60)", 60),
                ("PHONE", "VARCHAR(20)", 20),
                ("CREATED_AT", "VARCHAR(45)", 45),
            ],
        },
    ]
}

fn table(name: &str) -> Table {
    tables().into_iter().find(|t| t.name == name).unwrap()
}

fn stem(t: &Table) -> String {
    format!("{}.20260421.000000.0000", t.name)
}

fn row_length(t: &Table) -> usize {
    t.cols.iter().map(|c| c.2).sum()
}

fn flg_path(t: &Table) -> String {
    format!("{}/{}.flg", DIR, stem(t))
}

fn dat_path(t: &Table) -> String {
    format!("{}/{}.dat.gz", DIR, stem(t))
}

fn flg_text(t: &Table) -> String {
    let s = stem(t);
    let mut out = format!("{}.dat.gz 0 {} 20260421000000\n", s, t.rows);
    out.push_str(&format!("FILENAME={}.dat.gz\n", s));
    out.push_str("FILESIZE=0\n");
    out.push_str(&format!("ROWCOUNT={}\n", t.rows));
    out.push_str("CREATEDATETIME=20260421000000\n");
    out.push_str(&format!("SQL=SELECT * FROM {}\n", t.name));
    out.push_str(&format!("ROWLENGTH={}\n", row_length(t)));
    out.push_str(&format!("COLUMNCOUNT={}\n", t.cols.len()));
    out.push_str("COLUMNDECRIPTION=\n");
    let mut start = 1;
    for (i, (name, ty, w)) in t.cols.iter().enumerate() {
        out.push_str(&format!("{}$${}$${}$$({},{})\n", i + 1, name, ty, start, start + w - 1));
        start += w;
    }
    out
}

fn value(t: &Table, col: usize, i: usize) -> String {
    let (name, ty, _) = t.cols[col];
    if name == "EMP_NAME" {
        let names = ["张伟", "王芳", "李娜", "刘洋", "陈静"];
        return format!("{}{}", names[i % names.len()], i);
    }
    if ty.starts_with("DECIMAL") {
        return format!("{}.{:02}", 1000 + i * 7, i % 100);
    }
    if ty.starts_with("INT") {
        return format!("{}", i % 97);
    }
    format!("{}-{}", name, i + 1)
}

fn push_field(buf: &mut Vec<u8>, v: &str, width: usize) {
    let b = v.as_bytes();
    assert!(b.len() <= width);
    buf.extend_from_slice(b);
    for _ in b.len()..width {
        buf.push(b' ');
    }
}

fn dat_plain(t: &Table) -> Vec<u8> {
    let mut out = Vec::new();
    for i in 0..t.rows {
        for c in 0..t.cols.len() {
            push_field(&mut out, &value(t, c, i), t.cols[c].2);
        }
        out.extend_from_slice(b"\r\n");
    }
    out
}

fn gzip(data: &[u8]) -> Vec<u8> {
    let mut enc = GzEncoder::new(Vec::new(), Compression::fast());
    enc.write_all(data).unwrap();
    enc.finish().unwrap()
}

fn dat_gz(t: &Table) -> Vec<u8> {
    gzip(&dat_plain(t))
}

fn meta(t: &Table) -> FlgMetadata {
    parse_flg(&flg_path(t), &flg_text(t)).unwrap()
}

fn listing() -> Vec<DirEntry> {
    let mut es = vec![DirEntry { name: "README.md".to_string(), path: format!("{}/README.md", DIR) }];
    for t in tables() {
        es.push(DirEntry { name: format!("{}.dat.gz", stem(&t)), path: dat_path(&t) });
        es.push(DirEntry { name: format!("{}.flg", stem(&t)), path: flg_path(&t) });
    }
    es
}

fn count_lines(gz: &[u8]) -> usize {
    let mut d = Vec::new();
    GzDecoder::new(gz).read_to_end(&mut d).unwrap();
    d.split_inclusive(|b| *b == b'\n').filter(|l| line_has_content(l)).count()
}

fn probe(t: &Table) -> DatProbe {
    let gz = dat_gz(t);
    DatProbe {
        is_file: true,
        size: gz.len() as u64,
        exists: true,
        head_lines: Ok(5),
        line_count: Ok(count_lines(&gz)),
    }
}

fn pair_of(t: &Table) -> GutFilePair {
    scan_directory(&listing()).into_iter().find(|p| p.table_name == t.name).unwrap()
}

#[test]
fn test_parse_flg_employee() {
    let t = table("employee");
    let meta = parse_flg(&flg_path(&t), &flg_text(&t)).expect("employee.flg should parse");
    assert_eq!(meta.table_name, "employee");
    assert_eq!(meta.filename, "employee.20260421.000000.0000.dat.gz");
    assert_eq!(meta.row_count, 800);
    assert_eq!(meta.row_length, 212);
    assert_eq!(meta.column_count, 6);
    assert_eq!(meta.columns.len(), 6);
    assert_eq!(meta.columns[0].name, "EMP_NO");
    assert_eq!(meta.columns[0].start_pos, 1);
    assert_eq!(meta.columns[0].end_pos, 20);
    assert!(matches!(meta.columns[0].data_type, ColumnType::Varchar(20)));
    assert!(matches!(meta.columns[4].data_type, ColumnType::Decimal(12, 2)));
}

#[test]
fn test_parse_flg_order_int() {
    let t = table("order");
    let meta = parse_flg(&flg_path(&t), &flg_text(&t)).expect("order.flg should parse");
    assert_eq!(meta.table_name, "order");
    assert_eq!(meta.row_count, 3000);
    assert_eq!(meta.row_length, 205);
    let qty = meta.columns.iter().find(|c| c.name == "QUANTITY").unwrap();
    assert!(matches!(qty.data_type, ColumnType::Int(10)));
}

#[test]
fn test_parse_flg_user() {
    let t = table("user");
    let meta = parse_flg(&flg_path(&t), &flg_text(&t)).expect("user.flg should parse");
    assert_eq!(meta.table_name, "user");
    assert_eq!(meta.column_count, 5);
    assert_eq!(meta.columns.len(), 5);
    assert_eq!(meta.row_length, 195);
}

#[test]
fn test_parse_dat_employee() {
    let t = table("employee");
    let meta = meta(&t);
    let rows = parse_dat(&dat_path(&t), &dat_gz(&t), &meta).unwrap();
    assert_eq!(rows.len(), meta.row_count);
    assert_eq!(rows[0].values.len(), meta.columns.len());
    assert!(!rows[0].values[0].is_empty());
    assert!(!rows[0].values[1].is_empty());
    let has_chinese = rows[0].values[1].chars().any(|c| !c.is_ascii());
    assert!(has_chinese, "EMP_NAME should hold Chinese text, got {:?}", rows[0].values[1]);
}

#[test]
fn test_parse_dat_user() {
    let t = table("user");
    let meta = meta(&t);
    let rows = parse_dat(&dat_path(&t), &dat_gz(&t), &meta).unwrap();
    assert_eq!(rows.len(), 2000);
    assert_eq!(rows[0].values.len(), 5);
}

#[test]
fn test_parse_dat_all_examples() {
    for t in tables() {
        let meta = meta(&t);
        let rows = parse_dat(&dat_path(&t), &dat_gz(&t), &meta).unwrap();
        assert_eq!(rows.len(), meta.row_count, "{} row count", t.name);
        for row in &rows {
            assert_eq!(row.values.len(), meta.columns.len());
        }
    }
}

#[test]
fn test_parse_dat_streaming_batches() {
    let t = table("user");
    let meta = meta(&t);
    let mut total = 0usize;
    let mut batch_count = 0usize;
    parse_dat_streaming(&dat_path(&t), &dat_gz(&t), &meta, 500, |batch: Vec<DataRow>| -> Result<(), String> {
        batch_count += 1;
        total += batch.len();
        Ok(())
    })
    .unwrap();
    assert_eq!(total, meta.row_count);
    assert_eq!(batch_count, (meta.row_count + 499) / 500);
}

#[test]
fn test_scan_directory_finds_five_pairs() {
    let pairs = scan_directory(&listing());
    assert_eq!(pairs.len(), 5, "five pairs expected, got {}", pairs.len());
    let names: Vec<&str> = pairs.iter().map(|p| p.table_name.as_str()).collect();
    for n in ["employee", "order", "product", "transaction", "user"] {
        assert!(names.contains(&n));
    }
    let listed: Vec<String> = listing().into_iter().map(|e| e.path).collect();
    for p in &pairs {
        assert!(listed.contains(&p.flg_path), "flg path not listed: {}", p.flg_path);
        assert!(listed.contains(&p.dat_path), "dat path not listed: {}", p.dat_path);
        assert_eq!(p.date, "20260421");
        assert_eq!(p.time, "000000");
        assert_eq!(p.sequence, "0000");
    }
}

#[test]
fn test_scan_finds_all_files() {
    let pairs = scan_directory(&listing());
    assert_eq!(pairs.len(), 5);
    let names: Vec<&str> = pairs.iter().map(|p| p.table_name.as_str()).collect();
    for n in ["employee", "order", "product", "transaction", "user"] {
        assert!(names.contains(&n));
    }
}

#[test]
fn test_flg_parsing() {
    for pair in scan_directory(&listing()) {
        let t = table(&pair.table_name);
        let metadata = parse_flg(&pair.flg_path, &flg_text(&t)).unwrap();
        assert!(metadata.row_count > 0);
        assert!(metadata.row_length > 0);
        assert_eq!(metadata.columns.len(), metadata.column_count);
        assert_eq!(metadata.table_name, pair.table_name);
        let mut expected_start = 1;
        for col in &metadata.columns {
            assert_eq!(col.start_pos, expected_start, "{} {}", pair.table_name, col.name);
            expected_start = col.end_pos + 1;
        }
        assert_eq!(expected_start - 1, metadata.row_length);
    }
}

#[test]
fn test_dat_parsing_with_chinese() {
    let pairs = scan_directory(&listing());
    let employee = pairs.iter().find(|p| p.table_name == "employee").unwrap();
    let t = table("employee");
    let metadata = parse_flg(&employee.flg_path, &flg_text(&t)).unwrap();
    let rows = parse_dat(&employee.dat_path, &dat_gz(&t), &metadata).unwrap();
    assert_eq!(rows.len(), metadata.row_count);
    assert!(!rows[0].values[0].is_empty());
    assert!(!rows[0].values[1].is_empty());
    let has_chinese = rows
        .iter()
        .any(|r| r.values.iter().any(|v| v.chars().any(|c| c > '\u{4E00}' && c < '\u{9FFF}')));
    assert!(has_chinese);
}

#[test]
fn test_streaming_parser_matches_inmemory_for_examples() {
    for pair in scan_directory(&listing()) {
        let t = table(&pair.table_name);
        let metadata = parse_flg(&pair.flg_path, &flg_text(&t)).unwrap();
        let gz = dat_gz(&t);
        let inmemory = parse_dat(&pair.dat_path, &gz, &metadata).unwrap();
        let mut streamed: Vec<DataRow> = Vec::new();
        parse_dat_streaming(&pair.dat_path, &gz, &metadata, 137, |batch: Vec<DataRow>| -> Result<(), String> {
            streamed.extend(batch);
            Ok(())
        })
        .unwrap();
        assert_eq!(inmemory.len(), streamed.len(), "{}", pair.table_name);
        for (a, b) in inmemory.iter().zip(streamed.iter()) {
            assert_eq!(a.values, b.values, "{}", pair.table_name);
        }
    }
}

#[test]
fn test_check_directory_exists() {
    let result = check_directory_exists(DIR, true, true, None);
    assert!(result.passed, "{}", result.message);
    let result = check_directory_exists("/nonexistent/path", false, false, None);
    assert!(!result.passed);
    assert_eq!(result.message, "目录不存在: /nonexistent/path");
}

#[test]
fn test_check_file_pairs_found() {
    let pairs = scan_directory(&listing());
    let result = check_file_pairs_found(&pairs);
    assert!(result.passed, "{}", result.message);
    assert_eq!(result.message, "发现 5 组有效文件对");
    let result = check_file_pairs_found(&Vec::new());
    assert!(!result.passed);
}

#[test]
fn test_check_filename_format() {
    for pair in scan_directory(&listing()) {
        let result = check_filename_format(&pair);
        assert!(result.passed, "[{}] {}", pair.table_name, result.message);
    }
}

#[test]
fn test_check_flg_parseable() {
    for pair in scan_directory(&listing()) {
        let t = table(&pair.table_name);
        let outcome = parse_flg(&pair.flg_path, &flg_text(&t)).map_err(|e| format!("{:?}", e));
        let (result, meta) = check_flg_parseable(&pair, outcome);
        assert!(result.passed, "[{}] {}", pair.table_name, result.message);
        assert!(meta.is_some());
    }
}

#[test]
fn test_check_column_count() {
    for pair in scan_directory(&listing()) {
        let meta = meta(&table(&pair.table_name));
        let result = check_column_count(&meta);
        assert!(result.passed, "[{}] {}", pair.table_name, result.message);
    }
}

#[test]
fn test_check_column_positions() {
    for pair in scan_directory(&listing()) {
        let meta = meta(&table(&pair.table_name));
        let result = check_column_positions(&meta);
        assert!(result.passed, "[{}] {}", pair.table_name, result.message);
    }
}

#[test]
fn test_check_gzip_integrity() {
    for pair in scan_directory(&listing()) {
        let result = check_gzip_integrity(&pair, true, Ok(5));
        assert!(result.passed, "[{}] {}", pair.table_name, result.message);
    }
}

#[test]
fn test_check_row_count() {
    for pair in scan_directory(&listing()) {
        let t = table(&pair.table_name);
        let meta = meta(&t);
        let result = check_row_count(&pair, &meta, true, Ok(count_lines(&dat_gz(&t))));
        assert!(result.passed, "[{}] {}", pair.table_name, result.message);
    }
}

#[test]
fn test_check_single_file_pair() {
    for t in tables() {
        let pair = pair_of(&t);
        let outcome = parse_flg(&pair.flg_path, &flg_text(&t)).map_err(|e| format!("{:?}", e));
        let results = check_single_file_pair(&pair, outcome, probe(&t));
        assert_eq!(results.len(), 7);
        for r in &results {
            assert!(r.passed, "[{}] {}: {}", pair.table_name, r.check_name, r.message);
        }
    }
}

#[test]
fn test_check_all_files_passes() {
    let (mut results, pairs) = begin_file_checks(DIR, true, true, None, Ok(listing()));
    assert_eq!(pairs.len(), 5);
    for pair in &pairs {
        let t = table(&pair.table_name);
        let outcome = parse_flg(&pair.flg_path, &flg_text(&t)).map_err(|e| format!("{:?}", e));
        results.extend(check_single_file_pair(pair, outcome, probe(&t)));
    }
    for r in &results {
        assert!(r.passed, "{}: {}", r.check_name, r.message);
    }
}

#[test]
fn test_run_all_checks_nonexistent_directory() {
    let (results, pairs) =
        begin_file_checks("/nonexistent/path/data", false, false, None, Err("no such dir".to_string()));
    let dir_check = results.iter().find(|r| r.check_name == "目录存在性");
    assert!(dir_check.is_some());
    assert!(!dir_check.unwrap().passed);
    assert!(pairs.is_empty());
    assert_eq!(results.len(), 1);
}
