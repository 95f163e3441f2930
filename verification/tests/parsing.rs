//! Column descriptions, rows and data files.

use std::io::Write;

use flate2::write::GzEncoder;
use flate2::Compression;

use gut_loader::models::{ColumnDefinition, ColumnType, DataRow, FlgMetadata};
use gut_loader::parser::dat::{
    extract_field, parse_dat, parse_dat_streaming, parse_row_bytes, stream_partial_dat, DatError, RowError,
    StreamError,
};
use gut_loader::parser::flg::{
    extract_table_name, parse_column_line, parse_column_type, parse_flg, parse_position_range,
    ColumnError, FlgError, FlgKey,
};
use gut_loader::parser::{scan_directory, DirEntry};
use gut_loader::validator::positions::check_column_positions;

fn col(index: usize, name: &str, data_type: ColumnType, start: usize, end: usize) -> ColumnDefinition {
    ColumnDefinition { index, name: name.to_string(), data_type, start_pos: start, end_pos: end }
}

fn meta(columns: Vec<ColumnDefinition>, row_length: usize) -> FlgMetadata {
    FlgMetadata {
        filename: "t.dat.gz".to_string(),
        file_size: 0,
        row_count: 0,
        created_at: String::new(),
        sql: String::new(),
        row_length,
        column_count: columns.len(),
        columns,
        table_name: "t".to_string(),
    }
}

#[test]
fn test_parse_column_type() {
    assert!(matches!(parse_column_type("VARCHAR(50)").unwrap(), ColumnType::Varchar(50)));
    assert!(matches!(parse_column_type("DECIMAL(12,2)").unwrap(), ColumnType::Decimal(12, 2)));
    assert!(matches!(parse_column_type("INT(10)").unwrap(), ColumnType::Int(10)));
}

#[test]
fn test_parse_position_range_halfwidth() {
    assert_eq!(parse_position_range("(1,20)").unwrap(), (1, 20));
}

#[test]
fn test_parse_position_range_fullwidth() {
    assert_eq!(parse_position_range("（21,70）").unwrap(), (21, 70));
}

#[test]
fn column_type_errors_and_aliases() {
    assert!(matches!(parse_column_type("numeric(8,3)").unwrap(), ColumnType::Decimal(8, 3)));
    assert!(matches!(parse_column_type("INTEGER(4)").unwrap(), ColumnType::Int(4)));
    assert_eq!(parse_column_type("VARCHAR50)").unwrap_err(), ColumnError::NoLeftParen);
    assert_eq!(parse_column_type("VARCHAR(50").unwrap_err(), ColumnError::NoRightParen);
    assert_eq!(parse_column_type("DECIMAL(12)").unwrap_err(), ColumnError::NoScale);
    assert_eq!(parse_column_type("BLOB(10)").unwrap_err(), ColumnError::UnsupportedType);
    assert_eq!(parse_column_type("VARCHAR(x)").unwrap_err(), ColumnError::BadLength);
}

#[test]
fn position_range_errors() {
    assert_eq!(parse_position_range("(0,5)").unwrap(), (0, 5));
    assert_eq!(
        parse_column_line("1$$A$$INT(2)$$(9,5)").unwrap_err(),
        ColumnError::InvalidRange
    );
    assert_eq!(parse_position_range("(15)").unwrap_err(), ColumnError::NoEnd);
    assert_eq!(parse_position_range("(a,5)").unwrap_err(), ColumnError::BadStart);
    assert_eq!(parse_position_range("(1,b)").unwrap_err(), ColumnError::BadEnd);
}

#[test]
fn column_line_parts() {
    let c = parse_column_line("3$$DEPARTMENT$$VARCHAR(50)$$(71,120)").unwrap();
    assert_eq!(c.index, 3);
    assert_eq!(c.name, "DEPARTMENT");
    assert!(matches!(c.data_type, ColumnType::Varchar(50)));
    assert_eq!((c.start_pos, c.end_pos), (71, 120));
    assert_eq!(parse_column_line("1$$A$$INT(2)").unwrap_err(), ColumnError::PartCount);
    assert_eq!(parse_column_line("x$$A$$INT(2)$$(1,2)").unwrap_err(), ColumnError::BadIndex);
}

#[test]
fn table_name_from_path() {
    assert_eq!(extract_table_name("/data/employee.20260421.000000.0000.flg").unwrap(), "employee");
    assert!(matches!(extract_table_name(".flg"), Err(FlgError::TableName)));
}

#[test]
fn flg_bad_number_is_reported() {
    let content = "head\nROWCOUNT=abc\n";
    match parse_flg("t.20260421.000000.0000.flg", content) {
        Err(FlgError::BadNumber { key, value }) => {
            assert_eq!(key, FlgKey::RowCount);
            assert_eq!(value, "abc");
        }
        other => panic!("unexpected {:?}", other),
    }
}

#[test]
fn row_errors_each_variant() {
    let m = meta(vec![col(1, "A", ColumnType::Varchar(3), 1, 3)], 3);
    assert!(matches!(
        parse_row_bytes(b"ab", &m, 7),
        Err(RowError::Length { line_no: 7, actual: 2, expected: 3 })
    ));
    let bad_range = meta(vec![col(1, "A", ColumnType::Varchar(3), 0, 3)], 3);
    assert!(matches!(parse_row_bytes(b"abc", &bad_range, 1), Err(RowError::FieldRange { .. })));
    let past_end = meta(vec![col(1, "A", ColumnType::Varchar(5), 1, 5)], 3);
    assert!(matches!(parse_row_bytes(b"abc", &past_end, 1), Err(RowError::FieldBounds { .. })));
    let half_char = meta(vec![col(1, "A", ColumnType::Varchar(2), 1, 2)], 3);
    let bytes = "中".as_bytes();
    assert!(matches!(parse_row_bytes(bytes, &half_char, 1), Err(RowError::FieldUtf8 { column: 0 })));
}

#[test]
fn row_fields_are_trimmed_on_the_right() {
    let m = meta(
        vec![col(1, "A", ColumnType::Varchar(4), 1, 4), col(2, "B", ColumnType::Int(3), 5, 7)],
        7,
    );
    let row = parse_row_bytes(b"ab   12", &m, 1).unwrap();
    assert_eq!(row.values, vec!["ab".to_string(), " 12".to_string()]);
}

#[test]
fn plain_data_files_and_decode_errors() {
    let m = meta(vec![col(1, "A", ColumnType::Varchar(2), 1, 2)], 2);
    let rows = parse_dat("t.dat", b"ab\r\n\r\nxyz\ncd", &m).unwrap();
    assert_eq!(rows.len(), 2);
    assert_eq!(rows[1].values[0], "cd");
    assert!(matches!(parse_dat("t.dat.gz", b"not gzip", &m), Err(DatError::Decode)));
    let mut calls = 0usize;
    let r = parse_dat_streaming("t.dat", b"ab\n", &m, 0, |_b: Vec<DataRow>| -> Result<(), String> {
        calls += 1;
        Ok(())
    });
    assert!(matches!(r, Err(StreamError::Dat(DatError::ZeroBatch))));
    let r = parse_dat_streaming("t.dat.gz", b"not gzip", &m, 1, |_b: Vec<DataRow>| -> Result<(), String> {
        calls += 1;
        Ok(())
    });
    assert!(matches!(r, Err(StreamError::Dat(DatError::Decode))));
    assert_eq!(calls, 0);
}

#[test]
fn gzip_data_is_decompressed() {
    let m = meta(vec![col(1, "A", ColumnType::Varchar(3), 1, 3)], 3);
    let mut enc = GzEncoder::new(Vec::new(), Compression::default());
    enc.write_all(b"abc\r\ndef\r\n").unwrap();
    let gz = enc.finish().unwrap();
    let rows = parse_dat("t.dat.gz", &gz, &m).unwrap();
    assert_eq!(rows.len(), 2);
    assert_eq!(rows[0].values[0], "abc");
    let mut batches: Vec<Vec<DataRow>> = Vec::new();
    let n = parse_dat_streaming("t.dat.gz", &gz, &m, 1, |b: Vec<DataRow>| -> Result<(), String> {
        batches.push(b);
        Ok(())
    })
    .unwrap();
    assert_eq!(n, 2);
    assert_eq!(batches.len(), 2);
    assert_eq!(batches[1][0].values[0], "def");
}

#[test]
fn streaming_stops_at_the_first_refused_batch() {
    let m = meta(vec![col(1, "A", ColumnType::Varchar(1), 1, 1)], 1);
    let data = b"a\nb\nc\nd\ne\n";
    let mut seen: Vec<usize> = Vec::new();
    let r = parse_dat_streaming("t.dat", data, &m, 2, |b: Vec<DataRow>| -> Result<(), String> {
        seen.push(b.len());
        if seen.len() == 2 {
            Err(format!("stop at {}", b[0].values[0]))
        } else {
            Ok(())
        }
    });
    match r {
        Err(StreamError::Consumer { batch, error }) => {
            assert_eq!(batch, 1);
            assert_eq!(error, "stop at c");
        }
        other => panic!("unexpected {:?}", other),
    }
    assert_eq!(seen, vec![2, 2]);
    let mut sizes: Vec<usize> = Vec::new();
    let n = parse_dat_streaming("t.dat", data, &m, 2, |b: Vec<DataRow>| -> Result<(), String> {
        sizes.push(b.len());
        Ok(())
    })
    .unwrap();
    assert_eq!(n, 3);
    assert_eq!(sizes, vec![2, 2, 1]);
}

#[test]
fn scan_sorts_and_needs_both_files() {
    let es = vec![
        DirEntry { name: "b.20260101.000000.0001.flg".into(), path: "d/b1.flg".into() },
        DirEntry { name: "b.20260101.000000.0001.dat.gz".into(), path: "d/b1.dat.gz".into() },
        DirEntry { name: "a.20260101.000000.0002.flg".into(), path: "d/a2.flg".into() },
        DirEntry { name: "a.20260101.000000.0002.dat.gz".into(), path: "d/a2.dat.gz".into() },
        DirEntry { name: "a.20260101.000000.0001.flg".into(), path: "d/a1.flg".into() },
        DirEntry { name: "a.20260101.000000.0001.dat.gz".into(), path: "d/a1.dat.gz".into() },
        DirEntry { name: "c.20260101.000000.0001.flg".into(), path: "d/c1.flg".into() },
        DirEntry { name: "odd.flg".into(), path: "d/odd.flg".into() },
        DirEntry { name: "odd.dat.gz".into(), path: "d/odd.dat.gz".into() },
    ];
    let pairs = scan_directory(&es);
    let keys: Vec<(String, String)> =
        pairs.iter().map(|p| (p.table_name.clone(), p.sequence.clone())).collect();
    assert_eq!(
        keys,
        vec![
            ("a".to_string(), "0001".to_string()),
            ("a".to_string(), "0002".to_string()),
            ("b".to_string(), "0001".to_string()),
        ]
    );
    assert_eq!(pairs[0].flg_path, "d/a1.flg");
    assert_eq!(pairs[0].dat_path, "d/a1.dat.gz");
}

#[test]
fn layout_check_sorts_columns_by_start() {
    let m = meta(
        vec![col(2, "B", ColumnType::Varchar(3), 4, 6), col(1, "A", ColumnType::Varchar(3), 1, 3)],
        6,
    );
    let r = check_column_positions(&m);
    assert!(r.passed, "{}", r.message);
    let gap = meta(
        vec![col(1, "A", ColumnType::Varchar(3), 1, 3), col(2, "B", ColumnType::Varchar(2), 5, 6)],
        6,
    );
    let r = check_column_positions(&gap);
    assert!(!r.passed);
    assert_eq!(r.severity, "error");
}

#[test]
fn written_fields_read_back() {
    for (value, width) in [("ab", 6usize), ("张三", 8), ("", 3), ("xyz", 3)] {
        let mut buf = Vec::new();
        gut_loader::cli::write_field(&mut buf, value, width);
        assert_eq!(buf.len(), width);
        let m = meta(vec![col(1, "A", ColumnType::Varchar(width), 1, width)], width);
        let row = parse_row_bytes(&buf, &m, 1).unwrap();
        assert_eq!(row.values, vec![value.to_string()]);
        let c = col(1, "A", ColumnType::Varchar(width), 1, width);
        assert_eq!(extract_field(&buf, &c, 0).unwrap(), value);
    }
}

#[test]
fn gzip_failing_partway_hands_out_the_full_batches_before_the_failure() {
    let m = meta(vec![col(1, "A", ColumnType::Varchar(1), 1, 1)], 1);
    let mut enc = GzEncoder::new(Vec::new(), Compression::default());
    enc.write_all(b"a\nb\nc\nd\ne\n").unwrap();
    let mut gz = enc.finish().unwrap();
    let crc_at = gz.len() - 8;
    gz[crc_at] ^= 0xff;
    assert!(matches!(parse_dat("t.dat.gz", &gz, &m), Err(DatError::Decode)));
    let mut seen: Vec<Vec<String>> = Vec::new();
    let r = parse_dat_streaming("t.dat.gz", &gz, &m, 2, |b: Vec<DataRow>| -> Result<(), String> {
        seen.push(b.into_iter().map(|row| row.values[0].clone()).collect());
        Ok(())
    });
    assert!(matches!(r, Err(StreamError::Dat(DatError::Decode))));
    assert_eq!(seen, vec![vec!["a", "b"], vec!["c", "d"]]);
}

#[test]
fn partial_data_hands_out_complete_lines_only() {
    let m = meta(vec![col(1, "A", ColumnType::Varchar(1), 1, 1)], 1);
    let mut seen: Vec<String> = Vec::new();
    let r = stream_partial_dat(b"a\nb\nc", &m, 1, |b: Vec<DataRow>| -> Result<(), String> {
        seen.push(b[0].values[0].clone());
        Ok(())
    });
    assert!(matches!(r, Err(StreamError::Dat(DatError::Decode))));
    assert_eq!(seen, vec!["a", "b"]);
    let r = stream_partial_dat(b"a\nb\n", &m, 1, |_b: Vec<DataRow>| -> Result<(), String> {
        Err("full".to_string())
    });
    assert!(matches!(r, Err(StreamError::Consumer { batch: 0, .. })));
}

#[test]
fn layout_whose_last_column_ends_at_the_largest_position() {
    let m = meta(
        vec![col(1, "A", ColumnType::Varchar(2), 1, 2), col(2, "B", ColumnType::Varchar(2), 3, usize::MAX)],
        10,
    );
    let r = check_column_positions(&m);
    assert!(!r.passed);
    assert!(r.message.contains(&usize::MAX.to_string()), "{}", r.message);
}
