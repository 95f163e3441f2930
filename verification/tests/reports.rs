//! Load reports, durations and the text summary.

use gut_loader::models::TableReport;
use gut_loader::report::{format_duration, summarize, summary_text, ReportGenerator};

fn make_table_report(name: &str, total: usize, success: usize, errors: Vec<String>) -> TableReport {
    TableReport {
        table_name: name.to_string(),
        row_count: total,
        success_count: success,
        failed_count: total - success,
        elapsed_ms: 1500,
        errors,
    }
}

fn success_rate(success: usize, total: usize) -> f64 {
    if total > 0 {
        success as f64 / total as f64
    } else {
        0.0
    }
}

fn speeds(n: usize) -> Vec<String> {
    (0..n).map(|_| "100".to_string()).collect()
}

#[test]
fn test_generate_aggregates_correctly() {
    let mut gen = ReportGenerator::new();
    gen.add_table_report(make_table_report("user", 100, 95, vec![]));
    gen.add_table_report(make_table_report("order", 200, 180, vec!["e1".into()]));
    gen.add_table_report(make_table_report("product", 50, 50, vec![]));
    let report = gen.generate();
    assert_eq!(report.total_tables, 3);
    assert_eq!(report.total_rows, 350);
    assert_eq!(report.success_rows, 325);
    assert_eq!(report.failed_rows, 25);
    assert!((success_rate(report.success_rows, report.total_rows) - (325.0 / 350.0)).abs() < 1e-9);
    assert_eq!(report.table_reports.len(), 3);
}

#[test]
fn test_generate_empty() {
    let gen = ReportGenerator::new();
    let report = gen.generate();
    assert_eq!(report.total_tables, 0);
    assert_eq!(report.total_rows, 0);
    assert_eq!(success_rate(report.success_rows, report.total_rows), 0.0);
}

#[test]
fn test_success_rate_full_success() {
    let mut gen = ReportGenerator::new();
    gen.add_table_report(make_table_report("t", 100, 100, vec![]));
    let report = gen.generate();
    assert!((success_rate(report.success_rows, report.total_rows) - 1.0).abs() < 1e-9);
}

#[test]
fn test_success_rate_all_failed() {
    let mut gen = ReportGenerator::new();
    gen.add_table_report(make_table_report("t", 100, 0, vec!["err".into()]));
    let report = gen.generate();
    assert_eq!(success_rate(report.success_rows, report.total_rows), 0.0);
    assert_eq!(report.failed_rows, 100);
}

#[test]
fn test_format_duration() {
    assert_eq!(format_duration(0), "0ms");
    assert_eq!(format_duration(500), "500ms");
    assert_eq!(format_duration(999), "999ms");
    assert_eq!(format_duration(1000), "1.0s");
    assert_eq!(format_duration(1500), "1.5s");
    assert_eq!(format_duration(59_999), "60.0s");
    assert_eq!(format_duration(60_000), "1m0.0s");
    assert_eq!(format_duration(75_500), "1m15.5s");
    assert_eq!(format_duration(125_000), "2m5.0s");
}

#[test]
fn format_duration_matches_float_rendering() {
    for ms in [1000u64, 1049, 1050, 1051, 1250, 1350, 1750, 2050, 33_333, 59_950, 61_050, 3_599_999] {
        let expected = if ms < 60_000 {
            format!("{:.1}s", ms as f64 / 1000.0)
        } else {
            format!("{}m{:.1}s", ms / 60_000, (ms % 60_000) as f64 / 1000.0)
        };
        assert_eq!(format_duration(ms), expected, "{} ms", ms);
    }
}

#[test]
fn test_export_summary_contains_key_sections() {
    let mut gen = ReportGenerator::new();
    gen.add_table_report(make_table_report("user", 100, 100, vec![]));
    gen.add_table_report(make_table_report("order", 10, 5, vec!["row 1 err".into(), "row 2 err".into()]));
    let report = gen.generate();
    let summary = summary_text(&report, "2026-04-21 00:00:00", "90.91", "100", &speeds(2));
    assert!(summary.contains("GUT 数据加载报告"));
    assert!(summary.contains("【汇总统计】"));
    assert!(summary.contains("【各表详情】"));
    assert!(summary.contains("user"));
    assert!(summary.contains("order"));
    assert!(summary.contains("【错误详情】"));
    assert!(summary.contains("row 1 err"));
}

#[test]
fn test_export_summary_no_errors_section_when_empty() {
    let mut gen = ReportGenerator::new();
    gen.add_table_report(make_table_report("user", 100, 100, vec![]));
    let report = gen.generate();
    let summary = summary_text(&report, "2026-04-21 00:00:00", "100.00", "100", &speeds(1));
    assert!(!summary.contains("【错误详情】"));
}

#[test]
fn test_export_summary_truncates_errors() {
    let many_errors: Vec<String> = (0..15).map(|i| format!("err-{}", i)).collect();
    let mut gen = ReportGenerator::new();
    gen.add_table_report(make_table_report("big", 100, 85, many_errors));
    let report = gen.generate();
    let summary = summary_text(&report, "2026-04-21 00:00:00", "85.00", "100", &speeds(1));
    assert!(summary.contains("err-0"));
    assert!(summary.contains("err-9"));
    assert!(!summary.contains("err-10"));
    assert!(summary.contains("及其他 5 条错误"));
}

#[test]
fn summary_lines_are_aligned() {
    let report = summarize(&vec![make_table_report("user", 100, 95, vec![])], 1500);
    let summary = summary_text(&report, "T", "95.00", "63", &vec!["63".to_string()]);
    let expected_header = format!(
        "{:<15} {:>8} {:>8} {:>8} {:>10} {:>12}\n",
        "表名", "总行数", "成功", "失败", "耗时", "速率(行/秒)"
    );
    assert!(summary.contains(&expected_header));
    let expected_row = format!("{:<15} {:>8} {:>8} {:>8} {:>10} {:>12}\n", "user", 100, 95, 5, "1.5s", "63");
    assert!(summary.contains(&expected_row));
    assert!(summary.contains("  总耗时:   1.5s\n"));
    assert!(summary.contains(&"-".repeat(65)));
}

#[test]
fn test_default_equals_new() {
    let g = ReportGenerator::default();
    assert_eq!(g.table_count(), 0);
}

#[test]
fn test_report_generation() {
    let mut gen = ReportGenerator::new();
    gen.add_table_report(TableReport {
        table_name: "test".to_string(),
        row_count: 1000,
        success_count: 990,
        failed_count: 10,
        elapsed_ms: 5000,
        errors: vec!["test error".to_string()],
    });
    let report = gen.generate();
    assert_eq!(report.total_tables, 1);
    assert_eq!(report.total_rows, 1000);
    assert_eq!(report.success_rows, 990);
    assert_eq!(report.failed_rows, 10);
    assert!((success_rate(report.success_rows, report.total_rows) - 0.99).abs() < 0.001);
}

#[test]
fn summarize_keeps_reports_and_time() {
    let rs = vec![make_table_report("a", 3, 2, vec!["x".into()]), make_table_report("b", 4, 4, vec![])];
    let report = summarize(&rs, 777);
    assert_eq!(report.total_elapsed_ms, 777);
    assert_eq!(report.table_reports[0].errors, vec!["x".to_string()]);
    assert_eq!(report.table_reports[1].table_name, "b");
    assert_eq!((report.total_rows, report.success_rows, report.failed_rows), (7, 6, 1));
}
