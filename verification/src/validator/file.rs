//! Checks of the files of each table: naming, metadata, layout, data.
//! What the file system says (existence, sizes, how much decompresses) is
//! gathered by the caller and handed in; these functions decide and report.
use vstd::prelude::*;
use vstd::string::*;
use crate::models::{FlgMetadata, GutFilePair, PreCheckResult};
use crate::parser::flg::{FlgError, FlgErrorView, FlgKey};
use crate::text::{all_digits, dec, join, join_strings, push_uint, to_chars};
use crate::validator::positions::{
    check_column_positions, result_view, sort_by_start, spec_check_column_positions,
};

verus! {

/// A check result from its parts.
pub(crate) fn make_result(check_name: String, passed: bool, message: String, severity: &str) -> (r: PreCheckResult)
    ensures
        result_view(r) == (check_name@, passed, message@, severity@),
{
    PreCheckResult { check_name, passed, message, severity: String::from_str(severity) }
}

/// `"[" + table + "] " + what`: the name of a check on one table.
fn table_check_name(table: &String, what: &str) -> (r: String)
    ensures
        r@ == "["@ + table@ + "] "@ + what@,
{
    let mut s = String::from_str("[");
    s.append(table.as_str());
    s.append("] ");
    s.append(what);
    s
}

pub open spec fn tname(table: Seq<char>, what: Seq<char>) -> Seq<char> {
    "["@ + table + "] "@ + what
}

// ---------------------------------------------------------------------------
// Directory
// ---------------------------------------------------------------------------
/// The directory check, from what the file system says of the path `display`:
/// whether it exists, whether it is a directory, and whether listing it
/// failed with the error text `list_error`.
pub open spec fn spec_check_directory_exists(
    display: Seq<char>,
    exists: bool,
    is_dir: bool,
    list_error: Option<Seq<char>>,
) -> (Seq<char>, bool, Seq<char>, Seq<char>) {
    let name = "目录存在性"@;
    if !exists {
        (name, false, "目录不存在: "@ + display, "error"@)
    } else if !is_dir {
        (name, false, "路径不是目录: "@ + display, "error"@)
    } else {
        match list_error {
            None => (name, true, "目录存在且可读: "@ + display, "info"@),
            Some(e) => (name, false, "目录不可读: "@ + display + ": "@ + e, "error"@),
        }
    }
}

/// Reports whether the data directory exists and can be listed.
pub fn check_directory_exists(
    display: &str,
    exists: bool,
    is_dir: bool,
    list_error: Option<String>,
) -> (r: PreCheckResult)
    ensures
        result_view(r) == spec_check_directory_exists(
            display@,
            exists,
            is_dir,
            match list_error {
                Some(e) => Some(e@),
                None => None,
            },
        ),
{
    let name = String::from_str("目录存在性");
    if !exists {
        let mut m = String::from_str("目录不存在: ");
        m.append(display);
        return make_result(name, false, m, "error");
    }
    if !is_dir {
        let mut m = String::from_str("路径不是目录: ");
        m.append(display);
        return make_result(name, false, m, "error");
    }
    match list_error {
        None => {
            let mut m = String::from_str("目录存在且可读: ");
            m.append(display);
            make_result(name, true, m, "info")
        },
        Some(e) => {
            let mut m = String::from_str("目录不可读: ");
            m.append(display);
            m.append(": ");
            m.append(e.as_str());
            make_result(name, false, m, "error")
        },
    }
}

/// The scan check for `n` pairs found.
pub open spec fn spec_check_file_pairs_found(n: nat) -> (Seq<char>, bool, Seq<char>, Seq<char>) {
    if n == 0 {
        ("文件扫描"@, false, "未发现任何有效的文件对（.flg + .dat.gz）"@, "error"@)
    } else {
        ("文件扫描"@, true, "发现 "@ + dec(n) + " 组有效文件对"@, "info"@)
    }
}

/// Reports whether any pair of files was found.
pub fn check_file_pairs_found(pairs: &Vec<GutFilePair>) -> (r: PreCheckResult)
    ensures
        result_view(r) == spec_check_file_pairs_found(pairs@.len()),
{
    let name = String::from_str("文件扫描");
    if pairs.len() == 0 {
        make_result(name, false, String::from_str("未发现任何有效的文件对（.flg + .dat.gz）"), "error")
    } else {
        let mut m = String::from_str("发现 ");
        push_uint(&mut m, pairs.len() as u64);
        m.append(" 组有效文件对");
        make_result(name, true, m, "info")
    }
}

// ---------------------------------------------------------------------------
// File names
// ---------------------------------------------------------------------------
/// `s` is `n` ASCII digits.
pub open spec fn digits_of_len(s: Seq<char>, n: nat) -> bool {
    s.len() == n && all_digits(s)
}

fn is_digits(s: &String) -> (r: bool)
    ensures
        r == all_digits(s@),
{
    let cs = to_chars(s.as_str());
    let mut i: usize = 0;
    while i < cs.len()
        invariant
            cs@ == s@,
            i <= cs@.len(),
            forall|k: int| 0 <= k < i ==> crate::text::is_digit(#[trigger] cs@[k]),
        decreases cs@.len() - i,
    {
        if !('0' <= cs[i] && cs[i] <= '9') {
            return false;
        }
        i = i + 1;
    }
    true
}

/// The problems of the parts of a file name, in the order reported.
pub open spec fn name_issues(p: crate::models::PairView) -> Seq<Seq<char>> {
    let a: Seq<Seq<char>> = if p.table_name.len() == 0 {
        seq!["表名为空"@]
    } else {
        seq![]
    };
    let b: Seq<Seq<char>> = if !digits_of_len(p.date, 8) {
        seq!["日期格式不符合YYYYMMDD"@]
    } else {
        seq![]
    };
    let c: Seq<Seq<char>> = if !digits_of_len(p.time, 6) {
        seq!["时间格式不符合HHMMSS"@]
    } else {
        seq![]
    };
    let d: Seq<Seq<char>> = if !(p.sequence.len() > 0 && all_digits(p.sequence)) {
        seq!["序号格式不正确"@]
    } else {
        seq![]
    };
    a + b + c + d
}

pub open spec fn dotted(p: crate::models::PairView) -> Seq<char> {
    p.table_name + "."@ + p.date + "."@ + p.time + "."@ + p.sequence
}

/// The naming check of a pair: a non-empty table name, an eight-digit
/// date, a six-digit time and a sequence of digits.
pub open spec fn spec_check_filename_format(p: crate::models::PairView) -> (
    Seq<char>,
    bool,
    Seq<char>,
    Seq<char>,
) {
    let issues = name_issues(p);
    let name = tname(p.table_name, "文件命名格式"@);
    if issues.len() == 0 {
        (name, true, "文件命名格式正确: "@ + dotted(p), "warning"@)
    } else {
        (
            name,
            false,
            "文件命名格式异常: "@ + dotted(p) + " ("@ + join(issues, ", "@) + ")"@,
            "warning"@,
        )
    }
}

/// The naming check passes exactly when the table name is not empty, the
/// date is exactly eight ASCII digits, the time exactly six, and the
/// sequence one or more; a date of any other form is reported as such.
pub proof fn law_filename_passes_iff_well_formed(p: crate::models::PairView)
    ensures
        spec_check_filename_format(p).1 <==> {
            &&& p.table_name.len() > 0
            &&& p.date.len() == 8
            &&& forall|i: int| 0 <= i < 8 ==> '0' <= #[trigger] p.date[i] <= '9'
            &&& p.time.len() == 6
            &&& forall|i: int| 0 <= i < 6 ==> '0' <= #[trigger] p.time[i] <= '9'
            &&& p.sequence.len() > 0
            &&& forall|i: int| 0 <= i < p.sequence.len() ==> '0' <= #[trigger] p.sequence[i] <= '9'
        },
        !(p.date.len() == 8 && forall|i: int| 0 <= i < 8 ==> '0' <= #[trigger] p.date[i] <= '9')
            ==> name_issues(p).contains("日期格式不符合YYYYMMDD"@),
{
    let tn: Seq<Seq<char>> = if p.table_name.len() == 0 {
        seq!["表名为空"@]
    } else {
        seq![]
    };
    let dt: Seq<Seq<char>> = if !digits_of_len(p.date, 8) {
        seq!["日期格式不符合YYYYMMDD"@]
    } else {
        seq![]
    };
    let tm: Seq<Seq<char>> = if !digits_of_len(p.time, 6) {
        seq!["时间格式不符合HHMMSS"@]
    } else {
        seq![]
    };
    let sq: Seq<Seq<char>> = if !(p.sequence.len() > 0 && all_digits(p.sequence)) {
        seq!["序号格式不正确"@]
    } else {
        seq![]
    };
    assert(name_issues(p) == tn + dt + tm + sq);
    if !digits_of_len(p.date, 8) {
        assert((tn + dt + tm + sq)[tn.len() as int] == "日期格式不符合YYYYMMDD"@);
    }
}

/// Checks that the name of a pair reads `table.YYYYMMDD.HHMMSS.SEQUENCE`.
pub fn check_filename_format(pair: &GutFilePair) -> (r: PreCheckResult)
    ensures
        result_view(r) == spec_check_filename_format(pair@),
{
    let name = table_check_name(&pair.table_name, "文件命名格式");
    let date_digits = is_digits(&pair.date);
    let time_digits = is_digits(&pair.time);
    let seq_digits = is_digits(&pair.sequence);
    let date_valid = pair.date.as_str().unicode_len() == 8 && date_digits;
    let time_valid = pair.time.as_str().unicode_len() == 6 && time_digits;
    let seq_valid = pair.sequence.as_str().unicode_len() > 0 && seq_digits;
    let name_valid = pair.table_name.as_str().unicode_len() > 0;
    let mut dotted_text = String::from_str(pair.table_name.as_str());
    dotted_text.append(".");
    dotted_text.append(pair.date.as_str());
    dotted_text.append(".");
    dotted_text.append(pair.time.as_str());
    dotted_text.append(".");
    dotted_text.append(pair.sequence.as_str());
    if name_valid && date_valid && time_valid && seq_valid {
        let mut m = String::from_str("文件命名格式正确: ");
        m.append(dotted_text.as_str());
        assert(name_issues(pair@) =~= Seq::<Seq<char>>::empty());
        return make_result(name, true, m, "warning");
    }
    let mut issues: Vec<String> = Vec::new();
    if !name_valid {
        issues.push(String::from_str("表名为空"));
    }
    if !date_valid {
        issues.push(String::from_str("日期格式不符合YYYYMMDD"));
    }
    if !time_valid {
        issues.push(String::from_str("时间格式不符合HHMMSS"));
    }
    if !seq_valid {
        issues.push(String::from_str("序号格式不正确"));
    }
    assert(issues@.map_values(|s: String| s@) =~= name_issues(pair@));
    let mut m = String::from_str("文件命名格式异常: ");
    m.append(dotted_text.as_str());
    m.append(" (");
    let joined = join_strings(&issues, ", ");
    m.append(joined.as_str());
    m.append(")");
    make_result(name, false, m, "warning")
}

// ---------------------------------------------------------------------------
// Metadata
// ---------------------------------------------------------------------------
pub open spec fn key_text(k: FlgKey) -> Seq<char> {
    match k {
        FlgKey::FileSize => "FILESIZE"@,
        FlgKey::RowCount => "ROWCOUNT"@,
        FlgKey::RowLength => "ROWLENGTH"@,
        FlgKey::ColumnCount => "COLUMNCOUNT"@,
    }
}

/// The text of a `.flg` reading error for the file at `path`.
pub open spec fn spec_flg_error_text(path: Seq<char>, e: FlgErrorView) -> Seq<char> {
    match e {
        FlgErrorView::TableName => "无法从文件名解析表名: "@ + path,
        FlgErrorView::BadNumber(k, v) => key_text(k) + " 不是合法整数: `"@ + v + "`"@,
    }
}

/// Describes a `.flg` reading error of the file at `path`.
pub fn flg_error_text(path: &str, e: &FlgError) -> (r: String)
    ensures
        r@ == spec_flg_error_text(path@, e@),
{
    match e {
        FlgError::TableName => {
            let mut m = String::from_str("无法从文件名解析表名: ");
            m.append(path);
            m
        },
        FlgError::BadNumber { key, value } => {
            let mut m = match key {
                FlgKey::FileSize => String::from_str("FILESIZE"),
                FlgKey::RowCount => String::from_str("ROWCOUNT"),
                FlgKey::RowLength => String::from_str("ROWLENGTH"),
                FlgKey::ColumnCount => String::from_str("COLUMNCOUNT"),
            };
            m.append(" 不是合法整数: `");
            m.append(value.as_str());
            m.append("`");
            m
        },
    }
}

/// The metadata check of the table `table`.
pub open spec fn spec_check_flg_parseable(table: Seq<char>, outcome: Result<FlgMetadata, String>) -> (
    Seq<char>,
    bool,
    Seq<char>,
    Seq<char>,
) {
    let name = tname(table, "FLG可解析"@);
    match outcome {
        Ok(m) => (
            name,
            true,
            "FLG文件解析成功: 表="@ + m.table_name@ + ", 行数="@ + dec(m.row_count as nat)
                + ", 字段数="@ + dec(m.column_count as nat),
            "info"@,
        ),
        Err(e) => (name, false, "FLG文件解析失败: "@ + e@, "error"@),
    }
}

/// Reports whether the `.flg` file of a pair could be read; `outcome` is
/// the metadata or the text of the error. The metadata is handed back.
pub fn check_flg_parseable(pair: &GutFilePair, outcome: Result<FlgMetadata, String>) -> (r: (
    PreCheckResult,
    Option<FlgMetadata>,
))
    ensures
        result_view(r.0) == spec_check_flg_parseable(pair@.table_name, outcome),
        match outcome {
            Ok(m) => r.1 == Some(m),
            Err(_) => r.1 is None,
        },
{
    let name = table_check_name(&pair.table_name, "FLG可解析");
    match outcome {
        Ok(meta) => {
            let mut m = String::from_str("FLG文件解析成功: 表=");
            m.append(meta.table_name.as_str());
            m.append(", 行数=");
            push_uint(&mut m, meta.row_count as u64);
            m.append(", 字段数=");
            push_uint(&mut m, meta.column_count as u64);
            (make_result(name, true, m, "info"), Some(meta))
        },
        Err(e) => {
            let mut m = String::from_str("FLG文件解析失败: ");
            m.append(e.as_str());
            (make_result(name, false, m, "error"), None)
        },
    }
}

/// The column count check of `meta`.
pub open spec fn spec_check_column_count(meta: FlgMetadata) -> (Seq<char>, bool, Seq<char>, Seq<char>) {
    let name = tname(meta@.table_name, "字段数量"@);
    let actual = meta@.columns.len();
    if actual == meta@.column_count {
        (name, true, "字段数量匹配: "@ + dec(actual) + " 个字段"@, "info"@)
    } else {
        (
            name,
            false,
            "字段数量不匹配: 定义了 "@ + dec(actual) + " 个字段, COLUMNCOUNT 声明 "@ + dec(
                meta@.column_count,
            ) + " 个"@,
            "error"@,
        )
    }
}

/// Reports whether the number of column descriptions is COLUMNCOUNT.
pub fn check_column_count(metadata: &FlgMetadata) -> (r: PreCheckResult)
    ensures
        result_view(r) == spec_check_column_count(*metadata),
{
    let name = table_check_name(&metadata.table_name, "字段数量");
    let actual = metadata.columns.len();
    let expected = metadata.column_count;
    if actual == expected {
        let mut m = String::from_str("字段数量匹配: ");
        push_uint(&mut m, actual as u64);
        m.append(" 个字段");
        make_result(name, true, m, "info")
    } else {
        let mut m = String::from_str("字段数量不匹配: 定义了 ");
        push_uint(&mut m, actual as u64);
        m.append(" 个字段, COLUMNCOUNT 声明 ");
        push_uint(&mut m, expected as u64);
        m.append(" 个");
        make_result(name, false, m, "error")
    }
}

// ---------------------------------------------------------------------------
// Data file
// ---------------------------------------------------------------------------
/// The data file check of a pair.
pub open spec fn spec_check_dat_file_exists(p: crate::models::PairView, is_file: bool, size: u64) -> (
    Seq<char>,
    bool,
    Seq<char>,
    Seq<char>,
) {
    let name = tname(p.table_name, "DAT文件存在"@);
    if is_file {
        (name, true, "DAT文件存在, 大小: "@ + dec(size as nat) + " 字节"@, "info"@)
    } else {
        (name, false, "DAT文件不存在: "@ + p.dat_path, "error"@)
    }
}

/// Reports whether the data file of a pair is an existing file of `size` bytes.
pub fn check_dat_file_exists(pair: &GutFilePair, is_file: bool, size: u64) -> (r: PreCheckResult)
    ensures
        result_view(r) == spec_check_dat_file_exists(pair@, is_file, size),
{
    let name = table_check_name(&pair.table_name, "DAT文件存在");
    if is_file {
        let mut m = String::from_str("DAT文件存在, 大小: ");
        push_uint(&mut m, size);
        m.append(" 字节");
        make_result(name, true, m, "info")
    } else {
        let mut m = String::from_str("DAT文件不存在: ");
        m.append(pair.dat_path.as_str());
        make_result(name, false, m, "error")
    }
}

/// The decompression check of a pair.
pub open spec fn spec_check_gzip_integrity(
    p: crate::models::PairView,
    exists: bool,
    outcome: Result<usize, String>,
) -> (Seq<char>, bool, Seq<char>, Seq<char>) {
    let name = tname(p.table_name, "GZIP完整性"@);
    if !exists {
        (name, false, "GZIP文件不存在: "@ + p.dat_path, "error"@)
    } else {
        match outcome {
            Ok(n) => (name, true, "GZIP文件可正常解压, 已验证前 "@ + dec(n as nat) + " 行"@, "info"@),
            Err(e) => (name, false, "GZIP文件解压失败: "@ + e@, "error"@),
        }
    }
}

/// Reports whether the data file decompresses; `outcome` is the number of
/// leading lines read or the text of the error.
pub fn check_gzip_integrity(pair: &GutFilePair, exists: bool, outcome: Result<usize, String>) -> (r:
    PreCheckResult)
    ensures
        result_view(r) == spec_check_gzip_integrity(pair@, exists, outcome),
{
    let name = table_check_name(&pair.table_name, "GZIP完整性");
    if !exists {
        let mut m = String::from_str("GZIP文件不存在: ");
        m.append(pair.dat_path.as_str());
        return make_result(name, false, m, "error");
    }
    match outcome {
        Ok(n) => {
            let mut m = String::from_str("GZIP文件可正常解压, 已验证前 ");
            push_uint(&mut m, n as u64);
            m.append(" 行");
            make_result(name, true, m, "info")
        },
        Err(e) => {
            let mut m = String::from_str("GZIP文件解压失败: ");
            m.append(e.as_str());
            make_result(name, false, m, "error")
        },
    }
}

/// The row count check of a pair whose metadata declares `expected` rows.
pub open spec fn spec_check_row_count(
    p: crate::models::PairView,
    expected: usize,
    exists: bool,
    outcome: Result<usize, String>,
) -> (Seq<char>, bool, Seq<char>, Seq<char>) {
    let name = tname(p.table_name, "行数匹配"@);
    if !exists {
        (name, false, "DAT文件不存在，无法检查行数: "@ + p.dat_path, "warning"@)
    } else {
        match outcome {
            Ok(n) => (
                name,
                n == expected,
                (if n == expected {
                    "行数匹配: 实际 "@
                } else {
                    "行数不匹配: 实际 "@
                }) + dec(n as nat) + " 行, 声明 "@ + dec(expected as nat) + " 行"@,
                "warning"@,
            ),
            Err(e) => (name, false, "计数行数失败: "@ + e@, "warning"@),
        }
    }
}

/// The row count check passes exactly when the data file exists and its
/// non-empty lines were counted to the ROWCOUNT the metadata declares; any
/// other count, a missing file or a failed count makes it fail, and a count
/// that differs is reported as a mismatch.
pub proof fn law_row_count_passes_iff_equal(
    p: crate::models::PairView,
    expected: usize,
    exists: bool,
    outcome: Result<usize, String>,
)
    ensures
        spec_check_row_count(p, expected, exists, outcome).1 <==> (exists && outcome == Ok::<
            usize,
            String,
        >(expected)),
        exists ==> match outcome {
            Ok(n) => n != expected ==> spec_check_row_count(p, expected, exists, outcome).2
                == "行数不匹配: 实际 "@ + dec(n as nat) + " 行, 声明 "@ + dec(expected as nat) + " 行"@,
            Err(_) => true,
        },
{
}

/// Reports whether the data file has ROWCOUNT non-empty lines; `outcome`
/// is the count or the text of the error.
pub fn check_row_count(
    pair: &GutFilePair,
    metadata: &FlgMetadata,
    exists: bool,
    outcome: Result<usize, String>,
) -> (r: PreCheckResult)
    ensures
        result_view(r) == spec_check_row_count(pair@, metadata.row_count, exists, outcome),
{
    let name = table_check_name(&pair.table_name, "行数匹配");
    if !exists {
        let mut m = String::from_str("DAT文件不存在，无法检查行数: ");
        m.append(pair.dat_path.as_str());
        return make_result(name, false, m, "warning");
    }
    match outcome {
        Ok(actual) => {
            let expected = metadata.row_count;
            let passed = actual == expected;
            let mut m = if passed {
                String::from_str("行数匹配: 实际 ")
            } else {
                String::from_str("行数不匹配: 实际 ")
            };
            push_uint(&mut m, actual as u64);
            m.append(" 行, 声明 ");
            push_uint(&mut m, expected as u64);
            m.append(" 行");
            make_result(name, passed, m, "warning")
        },
        Err(e) => {
            let mut m = String::from_str("计数行数失败: ");
            m.append(e.as_str());
            make_result(name, false, m, "warning")
        },
    }
}

} // verus!

verus! {

/// What the file system says of the data file of a pair.
pub struct DatProbe {
    /// The path names an existing regular file.
    pub is_file: bool,
    /// Its size in bytes (0 where it cannot be read).
    pub size: u64,
    /// The path exists.
    pub exists: bool,
    /// How many leading lines (up to five) decompress, or the error text.
    pub head_lines: Result<usize, String>,
    /// How many non-empty lines it holds, or the error text.
    pub line_count: Result<usize, String>,
}

/// All checks of one pair, in order: file name, metadata, then, when the
/// metadata could be read, data file, column count, layout, decompression
/// and row count. `flg` is the metadata or the text of its reading error.
pub fn check_single_file_pair(pair: &GutFilePair, flg: Result<FlgMetadata, String>, probe: DatProbe) -> (r: Vec<
    PreCheckResult,
>)
    requires
        flg matches Ok(m) ==> forall|i: int|
            0 <= i < m@.columns.len() - 1 ==> (#[trigger] sort_by_start(m@.columns)[i]).end_pos
                < usize::MAX,
    ensures
        r@.len() == (if flg is Ok {
            7int
        } else {
            2int
        }),
        result_view(r@[0]) == spec_check_filename_format(pair@),
        result_view(r@[1]) == spec_check_flg_parseable(pair@.table_name, flg),
        flg matches Ok(m) ==> {
            &&& result_view(r@[2]) == spec_check_dat_file_exists(pair@, probe.is_file, probe.size)
            &&& result_view(r@[3]) == spec_check_column_count(m)
            &&& result_view(r@[4]) == spec_check_column_positions(m)
            &&& result_view(r@[5]) == spec_check_gzip_integrity(pair@, probe.exists, probe.head_lines)
            &&& result_view(r@[6]) == spec_check_row_count(
                pair@,
                m.row_count,
                probe.exists,
                probe.line_count,
            )
        },
{
    let mut results: Vec<PreCheckResult> = Vec::new();
    results.push(check_filename_format(pair));
    let (res, meta) = check_flg_parseable(pair, flg);
    results.push(res);
    let metadata = match meta {
        Some(m) => m,
        None => {
            return results;
        },
    };
    results.push(check_dat_file_exists(pair, probe.is_file, probe.size));
    results.push(check_column_count(&metadata));
    results.push(check_column_positions(&metadata));
    results.push(check_gzip_integrity(pair, probe.exists, probe.head_lines));
    results.push(check_row_count(pair, &metadata, probe.exists, probe.line_count));
    results
}

} // verus!

verus! {

/// The scan failure: listing the directory for pairs failed with `e`.
pub open spec fn spec_scan_failed(e: Seq<char>) -> (Seq<char>, bool, Seq<char>, Seq<char>) {
    ("文件扫描"@, false, "扫描目录失败: "@ + e, "error"@)
}

/// The first checks of a data directory, from what the file system says of
/// it (see [`check_directory_exists`]) and its listing, or the text of the
/// listing's failure. Gives the results so far and the pairs whose own
/// checks ([`check_single_file_pair`]) follow: none when the path is not a
/// directory, its listing failed, or no pair was found.
pub fn begin_file_checks(
    display: &str,
    exists: bool,
    is_dir: bool,
    list_error: Option<String>,
    listing: Result<Vec<crate::parser::DirEntry>, String>,
) -> (r: (Vec<PreCheckResult>, Vec<GutFilePair>))
    ensures
        result_view(r.0@[0]) == spec_check_directory_exists(
            display@,
            exists,
            is_dir,
            match list_error {
                Some(e) => Some(e@),
                None => None,
            },
        ),
        !is_dir ==> r.0@.len() == 1 && r.1@.len() == 0,
        is_dir ==> match listing {
            Err(e) => r.0@.len() == 2 && result_view(r.0@[1]) == spec_scan_failed(e@) && r.1@.len()
                == 0,
            Ok(entries) => {
                &&& r.0@.len() == 2
                &&& result_view(r.0@[1]) == spec_check_file_pairs_found(r.1@.len())
                &&& crate::parser::sorted_found(entries@, r.1@)
                &&& forall|stem: Seq<char>| #[trigger]
                    crate::parser::pair_of(entries@, stem) is Some ==> exists|k: int|
                        0 <= k < r.1@.len() && Some(#[trigger] r.1@[k]@) == crate::parser::pair_of(
                            entries@,
                            stem,
                        )
            },
        },
{
    let mut results: Vec<PreCheckResult> = Vec::new();
    results.push(check_directory_exists(display, exists, is_dir, list_error));
    if !is_dir {
        return (results, Vec::new());
    }
    match listing {
        Err(e) => {
            let mut m = String::from_str("扫描目录失败: ");
            m.append(e.as_str());
            results.push(make_result(String::from_str("文件扫描"), false, m, "error"));
            (results, Vec::new())
        },
        Ok(entries) => {
            let pairs = crate::parser::scan_directory(&entries);
            results.push(check_file_pairs_found(&pairs));
            (results, pairs)
        },
    }
}

} // verus!
