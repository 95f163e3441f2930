//! The load report: per-table outcomes summed into totals, durations made
//! readable, and the plain-text summary.
//!
//! Ratios and speeds are floating-point figures; they are rendered by the
//! caller and handed to [`summary_text`] as text.
use vstd::prelude::*;
use vstd::arithmetic::power2::{lemma2_to64_rest, lemma_pow2_unfold, pow2};
use vstd::string::*;
use crate::models::{LoadReport, LoadReportView, TableReport, TableReportView};
use crate::text::{dec, push_uint};

verus! {

// ---------------------------------------------------------------------------
// Durations
// ---------------------------------------------------------------------------
/// The largest `s <= start` at which `k * 2^s` is below `1000 * 2^53`: for
/// `k > 0` and `start` large enough, `k * 2^s / 1000` then lies in
/// `[2^52, 2^53)`, the range of the 53-bit significand of a double.
pub open spec fn f64_shift(k: nat, start: nat) -> nat
    decreases start,
{
    if start == 0 || k * pow2(start) < 1000 * pow2(53) {
        start
    } else {
        f64_shift(k, (start - 1) as nat)
    }
}

/// Where the double nearest to `k / 1000` (`k < 60000`) lies: above it (1),
/// on it (0) or below it (-1). Its significand is `k * 2^s / 1000` rounded
/// to the nearest integer, ties to even.
pub open spec fn f64_thousandths_rounding(k: nat) -> int {
    let s = f64_shift(k, 62);
    let n = k * pow2(s);
    let q = n / 1000;
    let r = n % 1000;
    if r == 0 {
        0
    } else if 2 * r > 1000 || (2 * r == 1000 && q % 2 == 1) {
        1
    } else {
        -1
    }
}

/// `k / 1000` seconds in tenths, as the double `k as f64 / 1000.0` is
/// rendered with one decimal: its exact value rounded, ties to even. Only a
/// value halfway between two tenths (`k % 100 == 50`) depends on where the
/// double lies.
pub open spec fn spec_tenths(k: nat) -> nat {
    let t = k / 100;
    let c = k % 100;
    if c < 50 {
        t
    } else if c > 50 {
        t + 1
    } else if f64_thousandths_rounding(k) > 0 {
        t + 1
    } else if f64_thousandths_rounding(k) < 0 {
        t
    } else if t % 2 == 0 {
        t
    } else {
        t + 1
    }
}

/// A number of tenths with one decimal.
pub open spec fn one_decimal(t: nat) -> Seq<char> {
    dec(t / 10) + "."@ + dec(t % 10)
}

/// A duration in milliseconds, readable: `500ms`, `1.5s`, `1m15.5s`.
pub open spec fn spec_format_duration(ms: nat) -> Seq<char> {
    if ms < 1000 {
        dec(ms) + "ms"@
    } else if ms < 60000 {
        one_decimal(spec_tenths(ms)) + "s"@
    } else {
        dec(ms / 60000) + "m"@ + one_decimal(spec_tenths(ms % 60000)) + "s"@
    }
}

fn tenths(k: u64) -> (t: u64)
    requires
        k < 60000,
    ensures
        t == spec_tenths(k as nat),
{
    let t = k / 100;
    let c = k % 100;
    if c < 50 {
        return t;
    }
    if c > 50 {
        return t + 1;
    }
    proof {
        lemma2_to64_rest();
    }
    let kk = k as u128;
    let lim: u128 = 1000u128 * 0x20000000000000u128;
    let mut s: u64 = 62;
    let mut p: u128 = 0x4000000000000000u128;
    assert(kk * p <= 60000 * 0x4000000000000000u128) by (nonlinear_arith)
        requires
            kk < 60000,
            p <= 0x4000000000000000u128,
    ;
    while s > 0 && kk * p >= lim
        invariant
            kk == k,
            k < 60000,
            s <= 62,
            p == pow2(s as nat),
            p <= 0x4000000000000000u128,
            kk * p <= 60000 * 0x4000000000000000u128,
            lim == 1000 * pow2(53),
            f64_shift(k as nat, s as nat) == f64_shift(k as nat, 62),
        decreases s,
    {
        assert(kk * p <= 60000 * 0x4000000000000000u128) by (nonlinear_arith)
            requires
                kk < 60000,
                p <= 0x4000000000000000u128,
        ;
        proof {
            lemma_pow2_unfold(s as nat);
        }
        s = s - 1;
        p = p / 2;
        assert(kk * p <= 60000 * 0x4000000000000000u128) by (nonlinear_arith)
            requires
                kk < 60000,
                p <= 0x4000000000000000u128,
        ;
    }
    assert(kk * p <= 60000 * 0x4000000000000000u128) by (nonlinear_arith)
        requires
            kk < 60000,
            p <= 0x4000000000000000u128,
    ;
    let n = kk * p;
    let q = n / 1000;
    let r = n % 1000;
    if r == 0 {
        if t % 2 == 0 {
            t
        } else {
            t + 1
        }
    } else if 2 * r > 1000 || (2 * r == 1000 && q % 2 == 1) {
        t + 1
    } else {
        t
    }
}

fn push_one_decimal(s: &mut String, t: u64)
    ensures
        final(s)@ == old(s)@ + one_decimal(t as nat),
{
    push_uint(s, t / 10);
    s.append(".");
    push_uint(s, t % 10);
}

/// Renders a duration in milliseconds: below a second in milliseconds,
/// below a minute in seconds with one decimal, else in minutes and seconds.
pub fn format_duration(ms: u64) -> (r: String)
    ensures
        r@ == spec_format_duration(ms as nat),
{
    let mut s = String::new();
    if ms < 1000 {
        push_uint(&mut s, ms);
        s.append("ms");
    } else if ms < 60000 {
        push_one_decimal(&mut s, tenths(ms));
        s.append("s");
    } else {
        push_uint(&mut s, ms / 60000);
        s.append("m");
        push_one_decimal(&mut s, tenths(ms % 60000));
        s.append("s");
    }
    s
}

// ---------------------------------------------------------------------------
// Totals
// ---------------------------------------------------------------------------
pub open spec fn total_rows_of(rs: Seq<TableReportView>) -> nat
    decreases rs.len(),
{
    if rs.len() == 0 {
        0
    } else {
        total_rows_of(rs.drop_last()) + rs.last().row_count
    }
}

pub open spec fn success_rows_of(rs: Seq<TableReportView>) -> nat
    decreases rs.len(),
{
    if rs.len() == 0 {
        0
    } else {
        success_rows_of(rs.drop_last()) + rs.last().success_count
    }
}

pub open spec fn failed_rows_of(rs: Seq<TableReportView>) -> nat
    decreases rs.len(),
{
    if rs.len() == 0 {
        0
    } else {
        failed_rows_of(rs.drop_last()) + rs.last().failed_count
    }
}

/// Whether the totals of `rs` fit in a machine word.
pub open spec fn totals_fit(rs: Seq<TableReportView>) -> bool {
    &&& total_rows_of(rs) <= usize::MAX
    &&& success_rows_of(rs) <= usize::MAX
    &&& failed_rows_of(rs) <= usize::MAX
}

/// The report of a load whose tables gave `rs`, after `elapsed_ms`.
pub open spec fn spec_summarize(rs: Seq<TableReportView>, elapsed_ms: nat) -> LoadReportView {
    LoadReportView {
        total_tables: rs.len(),
        total_rows: total_rows_of(rs),
        success_rows: success_rows_of(rs),
        failed_rows: failed_rows_of(rs),
        total_elapsed_ms: elapsed_ms,
        table_reports: rs,
    }
}

proof fn lemma_totals_prefix(rs: Seq<TableReportView>, i: int)
    requires
        0 <= i <= rs.len(),
    ensures
        total_rows_of(rs.take(i)) <= total_rows_of(rs),
        success_rows_of(rs.take(i)) <= success_rows_of(rs),
        failed_rows_of(rs.take(i)) <= failed_rows_of(rs),
    decreases rs.len() - i,
{
    if i < rs.len() {
        lemma_totals_prefix(rs, i + 1);
        assert(rs.take(i + 1).drop_last() =~= rs.take(i));
    } else {
        assert(rs.take(i) =~= rs);
    }
}

/// Adding a table's report adds its rows, successes and failures to the
/// totals, and one table to their count.
pub proof fn law_totals_accumulate(rs: Seq<TableReportView>, r: TableReportView, elapsed_ms: nat)
    ensures
        spec_summarize(rs.push(r), elapsed_ms).total_tables == spec_summarize(rs, elapsed_ms).total_tables + 1,
        spec_summarize(rs.push(r), elapsed_ms).total_rows == spec_summarize(rs, elapsed_ms).total_rows + r.row_count,
        spec_summarize(rs.push(r), elapsed_ms).success_rows == spec_summarize(rs, elapsed_ms).success_rows
            + r.success_count,
        spec_summarize(rs.push(r), elapsed_ms).failed_rows == spec_summarize(rs, elapsed_ms).failed_rows
            + r.failed_count,
{
    assert(rs.push(r).drop_last() =~= rs);
}

fn copy_strings(v: &Vec<String>) -> (r: Vec<String>)
    ensures
        r@.map_values(|e: String| e@) == v@.map_values(|e: String| e@),
{
    let mut r: Vec<String> = Vec::new();
    let mut i: usize = 0;
    while i < v.len()
        invariant
            i <= v@.len(),
            r@.len() == i,
            forall|k: int| 0 <= k < i ==> (#[trigger] r@[k])@ == v@[k]@,
        decreases v@.len() - i,
    {
        r.push(v[i].clone());
        i = i + 1;
    }
    assert(r@.map_values(|e: String| e@) =~= v@.map_values(|e: String| e@));
    r
}

/// A copy of a table report.
pub fn copy_table_report(r: &TableReport) -> (c: TableReport)
    ensures
        c@ == r@,
{
    TableReport {
        table_name: r.table_name.clone(),
        row_count: r.row_count,
        success_count: r.success_count,
        failed_count: r.failed_count,
        elapsed_ms: r.elapsed_ms,
        errors: copy_strings(&r.errors),
    }
}

/// Sums the table reports `reports` into the report of the whole load,
/// which took `total_elapsed_ms`.
pub fn summarize(reports: &Vec<TableReport>, total_elapsed_ms: u64) -> (r: LoadReport)
    requires
        totals_fit(reports@.map_values(|t: TableReport| t@)),
    ensures
        r@ == spec_summarize(reports@.map_values(|t: TableReport| t@), total_elapsed_ms as nat),
{
    let ghost rs = reports@.map_values(|t: TableReport| t@);
    let mut total_rows: usize = 0;
    let mut success_rows: usize = 0;
    let mut failed_rows: usize = 0;
    let mut copies: Vec<TableReport> = Vec::new();
    let mut i: usize = 0;
    assert(rs.take(0) =~= Seq::<TableReportView>::empty());
    while i < reports.len()
        invariant
            rs == reports@.map_values(|t: TableReport| t@),
            totals_fit(rs),
            i <= rs.len(),
            total_rows == total_rows_of(rs.take(i as int)),
            success_rows == success_rows_of(rs.take(i as int)),
            failed_rows == failed_rows_of(rs.take(i as int)),
            copies@.len() == i,
            forall|k: int| 0 <= k < i ==> (#[trigger] copies@[k])@ == rs[k],
        decreases rs.len() - i,
    {
        proof {
            lemma_totals_prefix(rs, i + 1);
            assert(rs.take(i + 1).drop_last() =~= rs.take(i as int));
        }
        let t = &reports[i];
        total_rows = total_rows + t.row_count;
        success_rows = success_rows + t.success_count;
        failed_rows = failed_rows + t.failed_count;
        copies.push(copy_table_report(t));
        i = i + 1;
    }
    assert(rs.take(rs.len() as int) =~= rs);
    assert(copies@.map_values(|t: TableReport| t@) =~= rs);
    LoadReport {
        total_tables: reports.len(),
        total_rows,
        success_rows,
        failed_rows,
        total_elapsed_ms,
        table_reports: copies,
    }
}

// ---------------------------------------------------------------------------
// The generator
// ---------------------------------------------------------------------------
#[verifier::external_type_specification]
#[verifier::external_body]
pub struct ExInstant(std::time::Instant);

/// `std::time::Instant::now`: the current time. Nothing is stated of it.
#[verifier::external_body]
fn instant_now() -> std::time::Instant {
    std::time::Instant::now()
}

/// `std::time::Instant::elapsed`: the time since `t`. Nothing is stated of it.
#[verifier::external_body]
fn instant_elapsed(t: &std::time::Instant) -> std::time::Duration {
    t.elapsed()
}

/// `std::time::Duration::as_millis`: the whole milliseconds of `d`. Nothing
/// is stated of it, as nothing states what `d` holds.
#[verifier::external_body]
fn duration_as_millis(d: &std::time::Duration) -> u128 {
    d.as_millis()
}

/// Collects the reports of the tables of a load, timed from its creation.
pub struct ReportGenerator {
    table_reports: Vec<TableReport>,
    start_time: std::time::Instant,
}

impl ReportGenerator {
    /// The reports added so far, in order.
    pub closed spec fn reports(&self) -> Seq<TableReportView> {
        self.table_reports@.map_values(|t: TableReport| t@)
    }

    /// A generator with no reports, timing from now.
    pub fn new() -> (g: ReportGenerator)
        ensures
            g.reports() == Seq::<TableReportView>::empty(),
    {
        let g = ReportGenerator { table_reports: Vec::new(), start_time: instant_now() };
        assert(g.reports() =~= Seq::<TableReportView>::empty());
        g
    }

    pub fn add_table_report(&mut self, report: TableReport)
        ensures
            final(self).reports() == old(self).reports().push(report@),
    {
        let ghost before = self.table_reports@;
        self.table_reports.push(report);
        assert(self.table_reports@.map_values(|t: TableReport| t@) =~= before.map_values(
            |t: TableReport| t@,
        ).push(report@));
    }

    pub fn table_count(&self) -> (n: usize)
        ensures
            n == self.reports().len(),
    {
        self.table_reports.len()
    }

    /// The report of the load: the tables' reports and their totals, with
    /// the milliseconds since the generator was made.
    pub fn generate(&self) -> (r: LoadReport)
        requires
            totals_fit(self.reports()),
        ensures
            r@ == spec_summarize(self.reports(), r.total_elapsed_ms as nat),
    {
        let d = instant_elapsed(&self.start_time);
        let ms = duration_as_millis(&d);
        let elapsed: u64 = #[verifier::truncate] (ms as u64);
        summarize(&self.table_reports, elapsed)
    }
}

impl Default for ReportGenerator {
    fn default() -> (g: ReportGenerator)
        ensures
            g.reports() == Seq::<TableReportView>::empty(),
    {
        ReportGenerator::new()
    }
}

// ---------------------------------------------------------------------------
// The summary
// ---------------------------------------------------------------------------
pub open spec fn spaces(n: nat) -> Seq<char> {
    Seq::new(n, |i: int| ' ')
}

/// `{:<w}`: `s` followed by spaces up to `w` characters.
pub open spec fn pad_right(s: Seq<char>, w: nat) -> Seq<char> {
    if s.len() >= w {
        s
    } else {
        s + spaces((w - s.len()) as nat)
    }
}

/// `{:>w}`: spaces up to `w` characters followed by `s`.
pub open spec fn pad_left(s: Seq<char>, w: nat) -> Seq<char> {
    if s.len() >= w {
        s
    } else {
        spaces((w - s.len()) as nat) + s
    }
}

fn push_spaces(out: &mut String, n: usize)
    ensures
        final(out)@ == old(out)@ + spaces(n as nat),
{
    let ghost start = out@;
    let mut i: usize = 0;
    proof {
        reveal_strlit(" ");
    }
    while i < n
        invariant
            i <= n,
            out@ == start + spaces(i as nat),
            " "@ == seq![' '],
        decreases n - i,
    {
        out.append(" ");
        i = i + 1;
        assert(out@ =~= start + spaces(i as nat));
    }
}

fn push_pad_right(out: &mut String, text: &str, w: usize)
    ensures
        final(out)@ == old(out)@ + pad_right(text@, w as nat),
{
    let n = text.unicode_len();
    out.append(text);
    if n < w {
        push_spaces(out, w - n);
    }
}

fn push_pad_left(out: &mut String, text: &str, w: usize)
    ensures
        final(out)@ == old(out)@ + pad_left(text@, w as nat),
{
    let n = text.unicode_len();
    let ghost start = out@;
    if n < w {
        push_spaces(out, w - n);
    }
    out.append(text);
    assert(out@ =~= start + pad_left(text@, w as nat));
}

pub open spec fn rule_line() -> Seq<char> {
    "═══════════════════════════════════════════\n"@
}

pub open spec fn dashes(n: nat) -> Seq<char> {
    Seq::new(n, |i: int| '-')
}

/// The head of the table of tables.
pub open spec fn header_line() -> Seq<char> {
    pad_right("表名"@, 15) + " "@ + pad_left("总行数"@, 8) + " "@ + pad_left("成功"@, 8) + " "@
        + pad_left("失败"@, 8) + " "@ + pad_left("耗时"@, 10) + " "@ + pad_left("速率(行/秒)"@, 12)
        + "\n"@
}

/// The line of one table; `speed` is its rendered rows per second.
pub open spec fn table_line(r: TableReportView, speed: Seq<char>) -> Seq<char> {
    pad_right(r.table_name, 15) + " "@ + pad_left(dec(r.row_count), 8) + " "@ + pad_left(
        dec(r.success_count),
        8,
    ) + " "@ + pad_left(dec(r.failed_count), 8) + " "@ + pad_left(
        spec_format_duration(r.elapsed_ms),
        10,
    ) + " "@ + pad_left(speed, 12) + "\n"@
}

pub open spec fn table_lines(rs: Seq<TableReportView>, speeds: Seq<Seq<char>>) -> Seq<char>
    decreases rs.len(),
{
    if rs.len() == 0 {
        seq![]
    } else {
        table_lines(rs.drop_last(), speeds.take(rs.len() - 1)) + table_line(
            rs.last(),
            speeds[rs.len() - 1],
        )
    }
}

/// The first `n` errors, numbered from 1.
pub open spec fn error_lines(errs: Seq<Seq<char>>, n: nat) -> Seq<char>
    decreases n,
{
    if n == 0 {
        seq![]
    } else {
        error_lines(errs, (n - 1) as nat) + "    "@ + dec(n) + ". "@ + errs[n - 1] + "\n"@
    }
}

/// Most errors listed per table.
pub open spec fn shown_errors(n: nat) -> nat {
    if n > 10 {
        10
    } else {
        n
    }
}

/// The errors of one table: at most ten, then how many more there were.
pub open spec fn table_errors(r: TableReportView) -> Seq<char> {
    if r.errors.len() == 0 {
        seq![]
    } else {
        "\n  表 '"@ + r.table_name + "':\n"@ + error_lines(r.errors, shown_errors(r.errors.len()))
            + (if r.errors.len() > 10 {
            "    ... 及其他 "@ + dec((r.errors.len() - 10) as nat) + " 条错误\n"@
        } else {
            seq![]
        })
    }
}

pub open spec fn all_table_errors(rs: Seq<TableReportView>) -> Seq<char>
    decreases rs.len(),
{
    if rs.len() == 0 {
        seq![]
    } else {
        all_table_errors(rs.drop_last()) + table_errors(rs.last())
    }
}

pub open spec fn any_errors(rs: Seq<TableReportView>) -> bool {
    exists|i: int| 0 <= i < rs.len() && (#[trigger] rs[i]).errors.len() > 0
}

/// The totals part of the summary of `report`, made at `generated_at`,
/// with the rendered success rate in percent and average speed.
pub open spec fn summary_head(
    report: LoadReportView,
    generated_at: Seq<char>,
    success_rate: Seq<char>,
    avg_speed: Seq<char>,
) -> Seq<char> {
    rule_line() + "          GUT 数据加载报告\n"@ + "  生成时间: "@ + generated_at + "\n"@ + rule_line()
        + "\n"@ + "【汇总统计】\n"@ + "  加载表数: "@ + dec(report.total_tables) + "\n"@
        + "  总记录数: "@ + dec(report.total_rows) + "\n"@ + "  成功记录: "@ + dec(
        report.success_rows,
    ) + "\n"@ + "  失败记录: "@ + dec(report.failed_rows) + "\n"@ + "  成功率:   "@ + success_rate
        + "%\n"@ + "  总耗时:   "@ + spec_format_duration(report.total_elapsed_ms) + "\n"@
        + "  平均速率: "@ + avg_speed + " 行/秒\n\n"@ + "【各表详情】\n"@
}

/// The table of tables, with each table's rendered speed.
pub open spec fn table_section(rs: Seq<TableReportView>, speeds: Seq<Seq<char>>) -> Seq<char> {
    header_line() + dashes(65) + "\n"@ + table_lines(rs, speeds)
}

/// The errors part, present when some table met errors.
pub open spec fn error_section(rs: Seq<TableReportView>) -> Seq<char> {
    if any_errors(rs) {
        "\n【错误详情】\n"@ + all_table_errors(rs)
    } else {
        seq![]
    }
}

/// The text summary of `report`.
pub open spec fn spec_summary(
    report: LoadReportView,
    generated_at: Seq<char>,
    success_rate: Seq<char>,
    avg_speed: Seq<char>,
    speeds: Seq<Seq<char>>,
) -> Seq<char> {
    summary_head(report, generated_at, success_rate, avg_speed) + table_section(
        report.table_reports,
        speeds,
    ) + error_section(report.table_reports) + "\n"@ + rule_line()
}

#[verifier::rlimit(60)]
fn push_table_line(out: &mut String, r: &TableReport, speed: &str)
    ensures
        final(out)@ == old(out)@ + table_line(r@, speed@),
{
    let ghost start = out@;
    push_pad_right(out, r.table_name.as_str(), 15);
    out.append(" ");
    let a = crate::text::fmt_uint(r.row_count as u64);
    push_pad_left(out, a.as_str(), 8);
    out.append(" ");
    let b = crate::text::fmt_uint(r.success_count as u64);
    push_pad_left(out, b.as_str(), 8);
    out.append(" ");
    let c = crate::text::fmt_uint(r.failed_count as u64);
    push_pad_left(out, c.as_str(), 8);
    out.append(" ");
    let d = format_duration(r.elapsed_ms);
    push_pad_left(out, d.as_str(), 10);
    out.append(" ");
    push_pad_left(out, speed, 12);
    out.append("\n");
    assert(out@ =~= start + table_line(r@, speed@));
}

fn push_table_errors(out: &mut String, r: &TableReport)
    ensures
        final(out)@ == old(out)@ + table_errors(r@),
{
    let ghost errs = r@.errors;
    let n = r.errors.len();
    if n == 0 {
        return;
    }
    let ghost start = out@;
    out.append("\n  表 '");
    out.append(r.table_name.as_str());
    out.append("':\n");
    let ghost head = out@;
    let shown: usize = if n > 10 {
        10
    } else {
        n
    };
    let mut i: usize = 0;
    while i < shown
        invariant
            errs == r@.errors,
            n == errs.len(),
            shown == shown_errors(n as nat),
            i <= shown,
            out@ == head + error_lines(errs, i as nat),
        decreases shown - i,
    {
        out.append("    ");
        push_uint(out, (i + 1) as u64);
        out.append(". ");
        out.append(r.errors[i].as_str());
        out.append("\n");
        i = i + 1;
        assert(out@ =~= head + error_lines(errs, i as nat));
    }
    if n > 10 {
        out.append("    ... 及其他 ");
        push_uint(out, (n - 10) as u64);
        out.append(" 条错误\n");
    }
    assert(out@ =~= start + table_errors(r@));
}

#[verifier::rlimit(60)]
fn push_summary_head(
    out: &mut String,
    report: &LoadReport,
    generated_at: &str,
    success_rate: &str,
    avg_speed: &str,
)
    ensures
        final(out)@ == old(out)@ + summary_head(report@, generated_at@, success_rate@, avg_speed@),
{
    let ghost start = out@;
    out.append("═══════════════════════════════════════════\n");
    out.append("          GUT 数据加载报告\n");
    out.append("  生成时间: ");
    out.append(generated_at);
    out.append("\n");
    out.append("═══════════════════════════════════════════\n");
    out.append("\n");
    out.append("【汇总统计】\n");
    out.append("  加载表数: ");
    push_uint(out, report.total_tables as u64);
    out.append("\n");
    out.append("  总记录数: ");
    push_uint(out, report.total_rows as u64);
    out.append("\n");
    out.append("  成功记录: ");
    push_uint(out, report.success_rows as u64);
    out.append("\n");
    out.append("  失败记录: ");
    push_uint(out, report.failed_rows as u64);
    out.append("\n");
    out.append("  成功率:   ");
    out.append(success_rate);
    out.append("%\n");
    out.append("  总耗时:   ");
    let total = format_duration(report.total_elapsed_ms);
    out.append(total.as_str());
    out.append("\n");
    out.append("  平均速率: ");
    out.append(avg_speed);
    out.append(" 行/秒\n\n");
    out.append("【各表详情】\n");
    assert(out@ =~= start + summary_head(report@, generated_at@, success_rate@, avg_speed@));
}

fn push_header(out: &mut String)
    ensures
        final(out)@ == old(out)@ + header_line() + dashes(65) + "\n"@,
{
    let ghost start = out@;
    push_pad_right(out, "表名", 15);
    out.append(" ");
    push_pad_left(out, "总行数", 8);
    out.append(" ");
    push_pad_left(out, "成功", 8);
    out.append(" ");
    push_pad_left(out, "失败", 8);
    out.append(" ");
    push_pad_left(out, "耗时", 10);
    out.append(" ");
    push_pad_left(out, "速率(行/秒)", 12);
    out.append("\n");
    assert(out@ =~= start + header_line());
    let ghost before_dashes = out@;
    let mut d: usize = 0;
    proof {
        reveal_strlit("-");
    }
    while d < 65
        invariant
            d <= 65,
            out@ == before_dashes + dashes(d as nat),
            "-"@ == seq!['-'],
        decreases 65 - d,
    {
        out.append("-");
        d = d + 1;
        assert(out@ =~= before_dashes + dashes(d as nat));
    }
    out.append("\n");
}

/// Appends the table of tables; tells whether some table met errors.
fn push_table_section(out: &mut String, report: &LoadReport, table_speeds: &Vec<String>) -> (e: bool)
    requires
        table_speeds@.len() == report.table_reports@.len(),
    ensures
        final(out)@ == old(out)@ + table_section(
            report@.table_reports,
            table_speeds@.map_values(|s: String| s@),
        ),
        e == any_errors(report@.table_reports),
{
    let ghost rs = report@.table_reports;
    let ghost speeds = table_speeds@.map_values(|s: String| s@);
    let ghost start = out@;
    push_header(out);
    let ghost before_tables = out@;
    let n = report.table_reports.len();
    let mut i: usize = 0;
    let mut has_errors = false;
    assert(table_lines(rs.take(0), speeds.take(0)) =~= Seq::<char>::empty());
    while i < n
        invariant
            rs == report@.table_reports,
            speeds == table_speeds@.map_values(|s: String| s@),
            n == rs.len(),
            speeds.len() == n,
            i <= n,
            out@ == before_tables + table_lines(rs.take(i as int), speeds.take(i as int)),
            has_errors == (exists|k: int| 0 <= k < i && (#[trigger] rs[k]).errors.len() > 0),
        decreases n - i,
    {
        let t = &report.table_reports[i];
        assert(rs[i as int] == t@);
        push_table_line(out, t, table_speeds[i].as_str());
        if t.errors.len() > 0 {
            has_errors = true;
        }
        proof {
            assert(rs.take(i + 1).drop_last() =~= rs.take(i as int));
            assert(speeds.take(i + 1).take(i as int) =~= speeds.take(i as int));
            assert(rs.take(i + 1).last() == rs[i as int]);
            assert(speeds.take(i + 1)[i as int] == speeds[i as int]);
        }
        i = i + 1;
    }
    assert(rs.take(n as int) =~= rs);
    assert(speeds.take(n as int) =~= speeds);
    assert(out@ =~= start + table_section(rs, speeds));
    has_errors
}

fn push_error_section(out: &mut String, report: &LoadReport, has_errors: bool)
    requires
        has_errors == any_errors(report@.table_reports),
    ensures
        final(out)@ == old(out)@ + error_section(report@.table_reports),
{
    let ghost rs = report@.table_reports;
    if !has_errors {
        assert(out@ =~= out@ + error_section(rs));
        return;
    }
    let ghost start = out@;
    out.append("\n【错误详情】\n");
    let ghost before_errors = out@;
    let n = report.table_reports.len();
    let mut j: usize = 0;
    assert(all_table_errors(rs.take(0)) =~= Seq::<char>::empty());
    while j < n
        invariant
            rs == report@.table_reports,
            n == rs.len(),
            j <= n,
            out@ == before_errors + all_table_errors(rs.take(j as int)),
        decreases n - j,
    {
        let t = &report.table_reports[j];
        assert(rs[j as int] == t@);
        push_table_errors(out, t);
        assert(rs.take(j + 1).drop_last() =~= rs.take(j as int));
        j = j + 1;
    }
    assert(rs.take(n as int) =~= rs);
    assert(out@ =~= start + error_section(rs));
}

/// The text summary of a load: totals, one line per table, and up to ten
/// errors of each table that met any. Figures that are fractions are given
/// rendered: `success_rate` in percent, `avg_speed` and each table's speed
/// in `table_speeds` in rows per second.
pub fn summary_text(
    report: &LoadReport,
    generated_at: &str,
    success_rate: &str,
    avg_speed: &str,
    table_speeds: &Vec<String>,
) -> (r: String)
    requires
        table_speeds@.len() == report.table_reports@.len(),
    ensures
        r@ == spec_summary(
            report@,
            generated_at@,
            success_rate@,
            avg_speed@,
            table_speeds@.map_values(|s: String| s@),
        ),
{
    let mut out = String::new();
    push_summary_head(&mut out, report, generated_at, success_rate, avg_speed);
    let has_errors = push_table_section(&mut out, report, table_speeds);
    push_error_section(&mut out, report, has_errors);
    out.append("\n");
    out.append("═══════════════════════════════════════════\n");
    out
}

} // verus!
