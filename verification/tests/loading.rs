//! Batches, resumed loads, streaming and tallies.

use gut_loader::loader::{
    line_has_content, plan_inmemory, LoadingState, progress_status, resume_skip, use_streaming, LoadTally,
    StreamingLoad, STREAMING_THRESHOLD_BYTES,
};
use gut_loader::models::{ColumnDefinition, ColumnType, DataRow, FlgMetadata};
use gut_loader::parser::dat::parse_dat;

fn rows(n: usize) -> Vec<DataRow> {
    (0..n).map(|i| DataRow { values: vec![format!("{}", i)] }).collect()
}

fn meta3() -> FlgMetadata {
    FlgMetadata {
        filename: "t.dat".to_string(),
        file_size: 0,
        row_count: 0,
        created_at: String::new(),
        sql: String::new(),
        row_length: 3,
        column_count: 1,
        columns: vec![ColumnDefinition {
            index: 1,
            name: "A".to_string(),
            data_type: ColumnType::Varchar(3),
            start_pos: 1,
            end_pos: 3,
        }],
        table_name: "t".to_string(),
    }
}

#[test]
fn streaming_threshold() {
    assert_eq!(STREAMING_THRESHOLD_BYTES, 100 * 1024 * 1024);
    assert!(!use_streaming(STREAMING_THRESHOLD_BYTES));
    assert!(use_streaming(STREAMING_THRESHOLD_BYTES + 1));
}

#[test]
fn resumed_loads_skip_what_is_there() {
    assert_eq!(resume_skip(0, 10), 0);
    assert_eq!(resume_skip(3, 10), 3);
    assert_eq!(resume_skip(10, 10), 10);
    assert_eq!(resume_skip(25, 10), 10);
}

#[test]
fn inmemory_batches() {
    let (skipped, batches) = plan_inmemory(rows(10), 3, 1);
    assert_eq!(skipped, 3);
    assert_eq!(batches.len(), 1);
    assert_eq!(batches[0].len(), 7);
    assert_eq!(batches[0][0].values[0], "3");
    // 20000 columns leave room for 3 rows per statement.
    let (_, batches) = plan_inmemory(rows(7), 0, 20000);
    let sizes: Vec<usize> = batches.iter().map(|b| b.len()).collect();
    assert_eq!(sizes, vec![3, 3, 1]);
    let (skipped, batches) = plan_inmemory(rows(4), 9, 1);
    assert_eq!(skipped, 4);
    assert!(batches.is_empty());
}

#[test]
fn tally_records_outcomes() {
    let mut t = LoadTally::new();
    t.record_batch("orders", 10, Ok(10));
    t.record_batch("orders", 5, Err("boom".to_string()));
    assert_eq!((t.success, t.failed), (10, 5));
    assert_eq!(t.errors, vec!["批量插入表 orders 失败: boom".to_string()]);
    let report = t.into_report("orders".to_string(), 20, 4, 1234);
    assert_eq!((report.row_count, report.success_count, report.failed_count), (20, 14, 5));
    assert_eq!(report.elapsed_ms, 1234);
    assert_eq!(progress_status(0), "completed");
    assert_eq!(progress_status(5), "completed_with_errors");
}

#[test]
fn streaming_skips_resumed_lines_and_bad_rows() {
    let mut s = StreamingLoad::new(meta3(), 2);
    let lines: Vec<&[u8]> = vec![b"aaa\r\n", b"\r\n", b"bbb\n", b"ccc\n", b"dd\n", b"eee"];
    for l in lines {
        assert!(s.feed_line(l).is_none());
    }
    assert_eq!(s.rows_read(), 5);
    let last = s.finish().expect("one partial batch");
    let values: Vec<String> = last.iter().map(|r| r.values[0].clone()).collect();
    assert_eq!(values, vec!["ccc".to_string(), "eee".to_string()]);
    s.record(last.len(), Err("down".to_string()));
    assert_eq!(s.failed_rows(), 2);
    let report = s.into_report(10);
    assert_eq!(report.row_count, 5);
    assert_eq!(report.success_count, 2);
    assert_eq!(report.failed_count, 2);
    assert_eq!(report.errors, vec!["流式批量插入表 t 失败 (累计行号 5): down".to_string()]);
}

#[test]
fn streaming_matches_inmemory_when_skipped_lines_are_rows() {
    let data = b"aaa\r\nbbb\r\nccc\r\nddd\r\n";
    let whole = parse_dat("t.dat", data, &meta3()).unwrap();
    let mut s = StreamingLoad::new(meta3(), 1);
    for l in data.split_inclusive(|b| *b == b'\n') {
        assert!(s.feed_line(l).is_none());
    }
    let batch = s.finish().unwrap();
    let (skipped, planned) = plan_inmemory(whole, 1, 1);
    assert_eq!(skipped, 1);
    let a: Vec<&Vec<String>> = batch.iter().map(|r| &r.values).collect();
    let b: Vec<&Vec<String>> = planned[0].iter().map(|r| &r.values).collect();
    assert_eq!(a, b);
}

#[test]
fn line_contents() {
    assert!(!line_has_content(b"\r\n"));
    assert!(!line_has_content(b"\n"));
    assert!(line_has_content(b"x\r\n"));
    assert!(line_has_content(b"\r\r\n"));
}

#[test]
fn a_second_task_is_refused_while_one_runs() {
    let mut s = LoadingState::new();
    s.stop();
    assert!(s.cancel);
    assert!(s.start().is_ok());
    assert!(s.is_loading && !s.cancel);
    assert_eq!(s.start().unwrap_err(), "已有加载任务在执行中");
    s.stop();
    assert!(s.is_loading && s.cancel);
    s.finish();
    assert!(!s.is_loading);
    assert!(s.start().is_ok());
    assert!(!s.cancel);
}
