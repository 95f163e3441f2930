//! Data types shared across the library: table layout metadata, parsed rows,
//! file pairs, connection settings and check results.
use vstd::prelude::*;

verus! {

/// Field data type, as written in the column descriptions of a `.flg` file:
/// `VARCHAR(n)`, `DECIMAL(m,n)` and `INT(n)`.
#[derive(Debug, Clone, Copy, PartialEq, Eq, Structural)]
pub enum ColumnType {
    /// VARCHAR(n)
    Varchar(usize),
    /// DECIMAL(m,n)
    Decimal(usize, usize),
    /// INT(n)
    Int(usize),
}

/// One column description: `index$$name$$type$$(start,end)`.
#[derive(Debug, Clone)]
pub struct ColumnDefinition {
    /// Ordinal, 1-based.
    pub index: usize,
    pub name: String,
    pub data_type: ColumnType,
    /// First byte of the field in a row, 1-based.
    pub start_pos: usize,
    /// Last byte of the field in a row, 1-based, inclusive.
    pub end_pos: usize,
}

/// Mathematical view of a [`ColumnDefinition`].
pub struct ColumnView {
    pub index: nat,
    pub name: Seq<char>,
    pub data_type: ColumnType,
    pub start_pos: nat,
    pub end_pos: nat,
}

impl View for ColumnDefinition {
    type V = ColumnView;

    open spec fn view(&self) -> ColumnView {
        ColumnView {
            index: self.index as nat,
            name: self.name@,
            data_type: self.data_type,
            start_pos: self.start_pos as nat,
            end_pos: self.end_pos as nat,
        }
    }
}

/// Everything a `.flg` file describes about its data file.
#[derive(Debug, Clone)]
pub struct FlgMetadata {
    /// FILENAME
    pub filename: String,
    /// FILESIZE (KB)
    pub file_size: u64,
    /// ROWCOUNT
    pub row_count: usize,
    /// CREATEDATETIME
    pub created_at: String,
    /// SQL
    pub sql: String,
    /// ROWLENGTH: bytes per row, line terminator excluded
    pub row_length: usize,
    /// COLUMNCOUNT
    pub column_count: usize,
    pub columns: Vec<ColumnDefinition>,
    /// Table name, taken from the file name
    pub table_name: String,
}

/// Mathematical view of [`FlgMetadata`].
pub struct FlgView {
    pub filename: Seq<char>,
    pub file_size: nat,
    pub row_count: nat,
    pub created_at: Seq<char>,
    pub sql: Seq<char>,
    pub row_length: nat,
    pub column_count: nat,
    pub columns: Seq<ColumnView>,
    pub table_name: Seq<char>,
}

impl View for FlgMetadata {
    type V = FlgView;

    open spec fn view(&self) -> FlgView {
        FlgView {
            filename: self.filename@,
            file_size: self.file_size as nat,
            row_count: self.row_count as nat,
            created_at: self.created_at@,
            sql: self.sql@,
            row_length: self.row_length as nat,
            column_count: self.column_count as nat,
            columns: self.columns@.map_values(|c: ColumnDefinition| c@),
            table_name: self.table_name@,
        }
    }
}

/// One parsed data row: the field values with trailing spaces removed.
#[derive(Debug, Clone)]
pub struct DataRow {
    pub values: Vec<String>,
}

impl View for DataRow {
    type V = Seq<Seq<char>>;

    open spec fn view(&self) -> Seq<Seq<char>> {
        self.values@.map_values(|v: String| v@)
    }
}

/// A `.flg` file and its `.dat.gz` file.
#[derive(Debug, Clone)]
pub struct GutFilePair {
    pub table_name: String,
    pub date: String,
    pub time: String,
    pub sequence: String,
    pub flg_path: String,
    pub dat_path: String,
}

/// Mathematical view of a [`GutFilePair`].
pub struct PairView {
    pub table_name: Seq<char>,
    pub date: Seq<char>,
    pub time: Seq<char>,
    pub sequence: Seq<char>,
    pub flg_path: Seq<char>,
    pub dat_path: Seq<char>,
}

impl View for GutFilePair {
    type V = PairView;

    open spec fn view(&self) -> PairView {
        PairView {
            table_name: self.table_name@,
            date: self.date@,
            time: self.time@,
            sequence: self.sequence@,
            flg_path: self.flg_path@,
            dat_path: self.dat_path@,
        }
    }
}

/// Connection settings of a target database.
#[derive(Debug, Clone)]
pub struct DatabaseConfig {
    /// mysql, postgresql, opengauss, txsql, tdsql, gaussdb, oracle, dameng
    pub db_type: String,
    pub host: String,
    pub port: u16,
    pub database: String,
    pub username: String,
    pub password: String,
    pub schema: Option<String>,
}

/// Settings of an OpenAI compatible chat service.
#[derive(Debug, Clone)]
pub struct LlmConfig {
    pub api_url: String,
    pub api_key: String,
    pub model: String,
}

/// Outcome of one pre-load check.
#[derive(Debug, Clone)]
pub struct PreCheckResult {
    pub check_name: String,
    pub passed: bool,
    pub message: String,
    /// info, warning or error
    pub severity: String,
}

/// The outcome of loading one table. Throughput (rows per second) is
/// derived from `success_count` and `elapsed_ms` where it is shown.
#[derive(Debug, Clone)]
pub struct TableReport {
    pub table_name: String,
    /// Rows the table holds: ROWCOUNT when loaded at once, the data lines
    /// read when streamed.
    pub row_count: usize,
    /// Rows in the table after loading, those kept from an earlier run included.
    pub success_count: usize,
    pub failed_count: usize,
    pub elapsed_ms: u64,
    pub errors: Vec<String>,
}

/// The outcome of a whole load. The success rate and the average speed are
/// derived from the counts where they are shown.
#[derive(Debug, Clone)]
pub struct LoadReport {
    pub total_tables: usize,
    pub total_rows: usize,
    pub success_rows: usize,
    pub failed_rows: usize,
    pub total_elapsed_ms: u64,
    pub table_reports: Vec<TableReport>,
}

/// Mathematical view of a [`TableReport`].
pub struct TableReportView {
    pub table_name: Seq<char>,
    pub row_count: nat,
    pub success_count: nat,
    pub failed_count: nat,
    pub elapsed_ms: nat,
    pub errors: Seq<Seq<char>>,
}

impl View for TableReport {
    type V = TableReportView;

    open spec fn view(&self) -> TableReportView {
        TableReportView {
            table_name: self.table_name@,
            row_count: self.row_count as nat,
            success_count: self.success_count as nat,
            failed_count: self.failed_count as nat,
            elapsed_ms: self.elapsed_ms as nat,
            errors: self.errors@.map_values(|e: String| e@),
        }
    }
}

/// Mathematical view of a [`LoadReport`].
pub struct LoadReportView {
    pub total_tables: nat,
    pub total_rows: nat,
    pub success_rows: nat,
    pub failed_rows: nat,
    pub total_elapsed_ms: nat,
    pub table_reports: Seq<TableReportView>,
}

impl View for LoadReport {
    type V = LoadReportView;

    open spec fn view(&self) -> LoadReportView {
        LoadReportView {
            total_tables: self.total_tables as nat,
            total_rows: self.total_rows as nat,
            success_rows: self.success_rows as nat,
            failed_rows: self.failed_rows as nat,
            total_elapsed_ms: self.total_elapsed_ms as nat,
            table_reports: self.table_reports@.map_values(|r: TableReport| r@),
        }
    }
}

} // verus!
