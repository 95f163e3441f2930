//! Target databases: the SQL dialects the loader speaks, batch sizing under
//! the bind-parameter limit, and the statements and connection settings that
//! each kind of database is sent.
use vstd::prelude::*;
use vstd::string::*;
use crate::models::{ColumnDefinition, ColumnType, ColumnView, DataRow, DatabaseConfig, FlgMetadata};
use crate::text::{dec, join, join_strings, lower, lower_eq_lit, push_uint, str_eq, to_chars};

verus! {

// ---------------------------------------------------------------------------
// Batch sizing
// ---------------------------------------------------------------------------
/// Most bind parameters that one statement is given.
pub const MAX_PARAMS: usize = 60000;

/// Rows per statement: at most `desired`, at most `MAX_PARAMS / column_count`,
/// and at least 1; `desired` itself when there are no columns.
pub open spec fn spec_safe_batch_size(column_count: nat, desired: nat) -> nat {
    if column_count == 0 {
        desired
    } else {
        let max_rows = 60000nat / column_count;
        let m = if desired < max_rows {
            desired
        } else {
            max_rows
        };
        if m < 1 {
            1
        } else {
            m
        }
    }
}

/// The number of rows per statement that keeps the bind parameters of a
/// statement under [`MAX_PARAMS`].
pub fn safe_batch_size(column_count: usize, desired_batch_size: usize) -> (r: usize)
    ensures
        r == spec_safe_batch_size(column_count as nat, desired_batch_size as nat),
{
    if column_count == 0 {
        return desired_batch_size;
    }
    let max_rows = MAX_PARAMS / column_count;
    let m = if desired_batch_size < max_rows {
        desired_batch_size
    } else {
        max_rows
    };
    if m < 1 {
        1
    } else {
        m
    }
}

/// For a table of 1 to `MAX_PARAMS` columns, a batch holds at least one row,
/// never more rows than asked for (when at least one is asked for), and its
/// bind parameters stay within `MAX_PARAMS`.
pub proof fn law_safe_batch_size_bounds(column_count: nat, desired: nat)
    requires
        0 < column_count <= 60000,
    ensures
        spec_safe_batch_size(column_count, desired) >= 1,
        desired >= 1 ==> spec_safe_batch_size(column_count, desired) <= desired,
        spec_safe_batch_size(column_count, desired) * column_count <= 60000,
{
    let r = spec_safe_batch_size(column_count, desired);
    let max_rows = 60000nat / column_count;
    assert(max_rows * column_count <= 60000) by (nonlinear_arith)
        requires
            column_count > 0,
            max_rows == 60000nat / column_count,
    ;
    assert(max_rows >= 1) by (nonlinear_arith)
        requires
            0 < column_count <= 60000,
            max_rows == 60000nat / column_count,
    ;
    assert(r <= max_rows);
    assert(r * column_count <= max_rows * column_count) by (nonlinear_arith)
        requires
            r <= max_rows,
    ;
}

/// The statements of a load of `n` rows, from row `from` on, as ranges
/// `[start, end)` of rows: pieces of `k` rows, in order, the last one
/// shorter where `k` does not divide what is left.
pub open spec fn spec_statement_ranges(n: nat, k: nat, from: nat) -> Seq<(usize, usize)>
    decreases n - from,
{
    if k == 0 || from >= n {
        seq![]
    } else {
        let hi: nat = if from + k < n {
            from + k
        } else {
            n
        };
        seq![(from as usize, hi as usize)] + spec_statement_ranges(n, k, hi)
    }
}

/// How a MySQL or PostgreSQL load cuts `row_count` rows into statements:
/// ranges of [`safe_batch_size`] rows for `column_count` columns, in order.
pub fn statement_ranges(row_count: usize, column_count: usize) -> (r: Vec<(usize, usize)>)
    ensures
        r@ == spec_statement_ranges(
            row_count as nat,
            spec_safe_batch_size(column_count as nat, row_count as nat),
            0,
        ),
{
    let n = row_count;
    let k = safe_batch_size(column_count, n);
    let mut r: Vec<(usize, usize)> = Vec::new();
    if k == 0 {
        assert(r@ =~= spec_statement_ranges(n as nat, k as nat, 0));
        return r;
    }
    let mut from: usize = 0;
    while from < n
        invariant
            k > 0,
            k == spec_safe_batch_size(column_count as nat, n as nat),
            from <= n,
            r@ + spec_statement_ranges(n as nat, k as nat, from as nat) == spec_statement_ranges(
                n as nat,
                k as nat,
                0,
            ),
        decreases n - from,
    {
        let hi: usize = if k < n - from {
            from + k
        } else {
            n
        };
        let ghost before = r@;
        r.push((from, hi));
        assert(spec_statement_ranges(n as nat, k as nat, from as nat) == seq![(from, hi)]
            + spec_statement_ranges(n as nat, k as nat, hi as nat));
        assert(r@ + spec_statement_ranges(n as nat, k as nat, hi as nat) =~= before
            + spec_statement_ranges(n as nat, k as nat, from as nat));
        from = hi;
    }
    assert(r@ =~= spec_statement_ranges(n as nat, k as nat, 0));
    r
}

/// The positions, ascending, of the rows among `rows[lo..hi]` that hold
/// exactly `column_count` values.
pub open spec fn fitting_rows(rows: Seq<DataRow>, lo: int, hi: int, column_count: nat) -> Seq<usize>
    decreases hi - lo,
{
    if lo >= hi {
        seq![]
    } else {
        (if rows[lo].values@.len() == column_count {
            seq![lo as usize]
        } else {
            seq![]
        }) + fitting_rows(rows, lo + 1, hi, column_count)
    }
}

/// The batches that an Oracle load sends, from the row at `from` on: the
/// rows are cut into pieces of `k`, each piece keeps the rows that hold
/// exactly `column_count` values, and a piece left with none is not sent.
pub open spec fn spec_oracle_batches(rows: Seq<DataRow>, column_count: nat, k: nat, from: int) -> Seq<
    Seq<usize>,
>
    decreases rows.len() - from,
{
    if k == 0 || from < 0 || from >= rows.len() {
        seq![]
    } else {
        let hi = if from + k < rows.len() {
            from + k
        } else {
            rows.len() as int
        };
        let b = fitting_rows(rows, from, hi, column_count);
        (if b.len() > 0 {
            seq![b]
        } else {
            seq![]
        }) + spec_oracle_batches(rows, column_count, k, hi)
    }
}

/// How an Oracle load groups `rows` into statements, as positions into
/// `rows`: pieces of [`safe_batch_size`] rows for `column_count` columns,
/// in order, each without the rows that do not hold `column_count` values,
/// and no empty batch.
pub fn oracle_batches(rows: &Vec<DataRow>, column_count: usize) -> (r: Vec<Vec<usize>>)
    ensures
        r@.map_values(|b: Vec<usize>| b@) == spec_oracle_batches(
            rows@,
            column_count as nat,
            spec_safe_batch_size(column_count as nat, rows@.len()),
            0,
        ),
{
    let n = rows.len();
    let k = safe_batch_size(column_count, n);
    let ghost cc = column_count as nat;
    let mut r: Vec<Vec<usize>> = Vec::new();
    if k == 0 {
        assert(r@.map_values(|b: Vec<usize>| b@) =~= Seq::<Seq<usize>>::empty());
        return r;
    }
    let mut from: usize = 0;
    while from < n
        invariant
            n == rows@.len(),
            k > 0,
            k == spec_safe_batch_size(cc, n as nat),
            cc == column_count,
            from <= n,
            r@.map_values(|b: Vec<usize>| b@) + spec_oracle_batches(rows@, cc, k as nat, from as int)
                == spec_oracle_batches(rows@, cc, k as nat, 0),
        decreases n - from,
    {
        let hi: usize = if k < n - from {
            from + k
        } else {
            n
        };
        let mut b: Vec<usize> = Vec::new();
        let mut j: usize = from;
        while j < hi
            invariant
                n == rows@.len(),
                cc == column_count,
                from <= j <= hi <= n,
                b@ + fitting_rows(rows@, j as int, hi as int, cc) == fitting_rows(
                    rows@,
                    from as int,
                    hi as int,
                    cc,
                ),
            decreases hi - j,
        {
            let ghost before = b@;
            let ghost rest = fitting_rows(rows@, j + 1, hi as int, cc);
            if rows[j].values.len() == column_count {
                b.push(j);
                assert(fitting_rows(rows@, j as int, hi as int, cc) == seq![j] + rest);
                assert(b@ + rest =~= before + (seq![j] + rest));
            } else {
                assert(fitting_rows(rows@, j as int, hi as int, cc) =~= rest);
            }
            j = j + 1;
        }
        assert(b@ =~= fitting_rows(rows@, from as int, hi as int, cc));
        let ghost done = r@.map_values(|x: Vec<usize>| x@);
        if b.len() > 0 {
            r.push(b);
            assert(r@.map_values(|x: Vec<usize>| x@) =~= done + seq![b@]);
        }
        assert(r@.map_values(|x: Vec<usize>| x@) + spec_oracle_batches(rows@, cc, k as nat, hi as int)
            =~= done + spec_oracle_batches(rows@, cc, k as nat, from as int));
        from = hi;
    }
    assert(r@.map_values(|b: Vec<usize>| b@) =~= spec_oracle_batches(rows@, cc, k as nat, 0));
    r
}

proof fn lemma_fitting_rows(rows: Seq<DataRow>, lo: int, hi: int, column_count: nat)
    requires
        0 <= lo <= hi <= rows.len(),
        hi <= usize::MAX,
    ensures
        fitting_rows(rows, lo, hi, column_count).len() <= hi - lo,
        forall|j: int|
            0 <= j < fitting_rows(rows, lo, hi, column_count).len() ==> {
                let e = #[trigger] fitting_rows(rows, lo, hi, column_count)[j];
                lo <= e < hi && rows[e as int].values@.len() == column_count
            },
    decreases hi - lo,
{
    if lo < hi {
        lemma_fitting_rows(rows, lo + 1, hi, column_count);
        let rest = fitting_rows(rows, lo + 1, hi, column_count);
        let f = fitting_rows(rows, lo, hi, column_count);
        if rows[lo].values@.len() == column_count {
            assert(f == seq![lo as usize] + rest);
            assert forall|j: int| 0 < j < f.len() implies f[j] == rest[j - 1] by {}
        } else {
            assert(f =~= rest);
        }
    }
}

proof fn lemma_oracle_batches(rows: Seq<DataRow>, column_count: nat, k: nat, from: int)
    requires
        0 <= from <= rows.len(),
        rows.len() <= usize::MAX,
    ensures
        forall|i: int|
            0 <= i < spec_oracle_batches(rows, column_count, k, from).len() ==> {
                let b = #[trigger] spec_oracle_batches(rows, column_count, k, from)[i];
                &&& 0 < b.len() <= k
                &&& forall|j: int|
                    0 <= j < b.len() ==> b[j] < rows.len() && rows[b[j] as int].values@.len()
                        == column_count
            },
    decreases rows.len() - from,
{
    if k > 0 && from < rows.len() {
        let hi = if from + k < rows.len() {
            from + k
        } else {
            rows.len() as int
        };
        lemma_fitting_rows(rows, from, hi, column_count);
        lemma_oracle_batches(rows, column_count, k, hi);
        let b = fitting_rows(rows, from, hi, column_count);
        let rest = spec_oracle_batches(rows, column_count, k, hi);
        let all = spec_oracle_batches(rows, column_count, k, from);
        if b.len() > 0 {
            assert(all == seq![b] + rest);
            assert forall|i: int| 0 < i < all.len() implies all[i] == rest[i - 1] by {}
        } else {
            assert(all =~= rest);
        }
    }
}

/// Every batch that an Oracle load sends is non-empty and lists, by
/// position, rows that hold exactly `column_count` values; for 1 to
/// `MAX_PARAMS` columns its bind parameters stay within `MAX_PARAMS`.
pub proof fn law_oracle_batches_fit(rows: Seq<DataRow>, column_count: nat)
    requires
        0 < column_count <= 60000,
        rows.len() <= usize::MAX,
    ensures
        forall|i: int|
            0 <= i < spec_oracle_batches(
                rows,
                column_count,
                spec_safe_batch_size(column_count, rows.len()),
                0,
            ).len() ==> {
                let b = #[trigger] spec_oracle_batches(
                    rows,
                    column_count,
                    spec_safe_batch_size(column_count, rows.len()),
                    0,
                )[i];
                &&& b.len() > 0
                &&& b.len() * column_count <= 60000
                &&& forall|j: int|
                    0 <= j < b.len() ==> b[j] < rows.len() && rows[b[j] as int].values@.len()
                        == column_count
            },
{
    let k = spec_safe_batch_size(column_count, rows.len());
    law_safe_batch_size_bounds(column_count, rows.len());
    lemma_oracle_batches(rows, column_count, k, 0);
    let bs = spec_oracle_batches(rows, column_count, k, 0);
    assert forall|i: int| 0 <= i < bs.len() implies (#[trigger] bs[i]).len() * column_count <= 60000 by {
        let m = bs[i].len();
        assert(m * column_count <= k * column_count) by (nonlinear_arith)
            requires
                m <= k,
        ;
    }
}

// ---------------------------------------------------------------------------
// Dialects and column types
// ---------------------------------------------------------------------------
/// The SQL dialects that tables are loaded into.
#[derive(Debug, Clone, Copy, PartialEq, Eq, Structural)]
pub enum Dialect {
    /// MySQL and its kin: TXSQL, TDSQL.
    MySql,
    /// PostgreSQL and its kin: openGauss, GaussDB.
    Postgres,
    Oracle,
    /// Dameng (DM).
    Dameng,
}

/// The column type of `t` in dialect `d`.
pub open spec fn ddl_type(d: Dialect, t: ColumnType) -> Seq<char> {
    match t {
        ColumnType::Varchar(n) => (if d is Oracle {
            "VARCHAR2("@
        } else {
            "VARCHAR("@
        }) + dec(n as nat) + ")"@,
        ColumnType::Decimal(m, n) => (match d {
            Dialect::Postgres => "NUMERIC("@,
            Dialect::Oracle => "NUMBER("@,
            _ => "DECIMAL("@,
        }) + dec(m as nat) + ","@ + dec(n as nat) + ")"@,
        ColumnType::Int(_) => if d is Oracle {
            "NUMBER(19)"@
        } else {
            "BIGINT"@
        },
    }
}

fn ddl_type_string(d: Dialect, t: ColumnType) -> (r: String)
    ensures
        r@ == ddl_type(d, t),
{
    match t {
        ColumnType::Varchar(n) => {
            let mut s = match d {
                Dialect::Oracle => String::from_str("VARCHAR2("),
                _ => String::from_str("VARCHAR("),
            };
            push_uint(&mut s, n as u64);
            s.append(")");
            s
        },
        ColumnType::Decimal(m, n) => {
            let mut s = match d {
                Dialect::Postgres => String::from_str("NUMERIC("),
                Dialect::Oracle => String::from_str("NUMBER("),
                _ => String::from_str("DECIMAL("),
            };
            push_uint(&mut s, m as u64);
            s.append(",");
            push_uint(&mut s, n as u64);
            s.append(")");
            s
        },
        ColumnType::Int(_) => match d {
            Dialect::Oracle => String::from_str("NUMBER(19)"),
            _ => String::from_str("BIGINT"),
        },
    }
}

/// The MySQL type of a column.
pub fn column_type_to_mysql_ddl(col: &ColumnDefinition) -> (r: String)
    ensures
        r@ == ddl_type(Dialect::MySql, col.data_type),
{
    ddl_type_string(Dialect::MySql, col.data_type)
}

/// The PostgreSQL type of a column.
pub fn column_type_to_pg_ddl(col: &ColumnDefinition) -> (r: String)
    ensures
        r@ == ddl_type(Dialect::Postgres, col.data_type),
{
    ddl_type_string(Dialect::Postgres, col.data_type)
}

/// The Oracle type of a column.
pub fn column_type_to_oracle_ddl(col: &ColumnDefinition) -> (r: String)
    ensures
        r@ == ddl_type(Dialect::Oracle, col.data_type),
{
    ddl_type_string(Dialect::Oracle, col.data_type)
}

/// The Dameng type of a column.
pub fn column_type_to_dm_ddl(col: &ColumnDefinition) -> (r: String)
    ensures
        r@ == ddl_type(Dialect::Dameng, col.data_type),
{
    ddl_type_string(Dialect::Dameng, col.data_type)
}

/// Which dialect a configured database type speaks, ASCII case ignored;
/// `None` for a type that is not supported.
pub open spec fn spec_dialect_of(db_type: Seq<char>) -> Option<Dialect> {
    let l = lower(db_type);
    if l == "mysql"@ || l == "txsql"@ || l == "tdsql"@ {
        Some(Dialect::MySql)
    } else if l == "postgresql"@ || l == "postgres"@ || l == "opengauss"@ || l == "gaussdb"@ {
        Some(Dialect::Postgres)
    } else if l == "oracle"@ {
        Some(Dialect::Oracle)
    } else if l == "dameng"@ || l == "dm"@ {
        Some(Dialect::Dameng)
    } else {
        None
    }
}

/// The dialect of a database type, as the loader factory picks the loader.
pub fn dialect_of(db_type: &str) -> (r: Option<Dialect>)
    ensures
        r == spec_dialect_of(db_type@),
{
    let cs = to_chars(db_type);
    if lower_eq_lit(&cs, "mysql") || lower_eq_lit(&cs, "txsql") || lower_eq_lit(&cs, "tdsql") {
        Some(Dialect::MySql)
    } else if lower_eq_lit(&cs, "postgresql") || lower_eq_lit(&cs, "postgres") || lower_eq_lit(
        &cs,
        "opengauss",
    ) || lower_eq_lit(&cs, "gaussdb") {
        Some(Dialect::Postgres)
    } else if lower_eq_lit(&cs, "oracle") {
        Some(Dialect::Oracle)
    } else if lower_eq_lit(&cs, "dameng") || lower_eq_lit(&cs, "dm") {
        Some(Dialect::Dameng)
    } else {
        None
    }
}

pub open spec fn unsupported_type_text(db_type: Seq<char>) -> Seq<char> {
    "Unsupported database type: "@ + db_type
}

/// The error text for a database type that no loader serves.
pub fn unsupported_type_message(db_type: &str) -> (r: String)
    ensures
        r@ == unsupported_type_text(db_type@),
{
    let mut s = String::from_str("Unsupported database type: ");
    s.append(db_type);
    s
}

// ---------------------------------------------------------------------------
// Names
// ---------------------------------------------------------------------------
/// `name` quoted as an identifier: back-quoted in MySQL, double-quoted elsewhere.
pub open spec fn quoted(d: Dialect, name: Seq<char>) -> Seq<char> {
    if d is MySql {
        "`"@ + name + "`"@
    } else {
        "\""@ + name + "\""@
    }
}

fn push_quoted(s: &mut String, d: Dialect, name: &str)
    ensures
        final(s)@ == old(s)@ + quoted(d, name@),
{
    match d {
        Dialect::MySql => {
            s.append("`");
            s.append(name);
            s.append("`");
        },
        _ => {
            s.append("\"");
            s.append(name);
            s.append("\"");
        },
    }
}

pub open spec fn opt_view(o: Option<String>) -> Option<Seq<char>> {
    match o {
        Some(s) => Some(s@),
        None => None,
    }
}

/// `"schema"."table"`, or `"table"` without a schema.
pub open spec fn spec_qualified_name(schema: Option<Seq<char>>, table: Seq<char>) -> Seq<char> {
    match schema {
        Some(s) => "\""@ + s + "\".\""@ + table + "\""@,
        None => "\""@ + table + "\""@,
    }
}

/// The table name with its schema, each double-quoted.
pub fn qualified_table_name(schema: &Option<String>, table_name: &str) -> (r: String)
    ensures
        r@ == spec_qualified_name(opt_view(*schema), table_name@),
{
    match schema {
        Some(sc) => {
            let mut s = String::from_str("\"");
            s.append(sc.as_str());
            s.append("\".\"");
            s.append(table_name);
            s.append("\"");
            s
        },
        None => {
            let mut s = String::from_str("\"");
            s.append(table_name);
            s.append("\"");
            s
        },
    }
}

/// How statements of dialect `d` name a table: PostgreSQL and Oracle with
/// the configured schema, MySQL and Dameng by the bare quoted name.
pub open spec fn table_ref(d: Dialect, schema: Option<Seq<char>>, table: Seq<char>) -> Seq<char> {
    match d {
        Dialect::Postgres | Dialect::Oracle => spec_qualified_name(schema, table),
        _ => quoted(d, table),
    }
}

fn table_ref_string(d: Dialect, schema: &Option<String>, table: &str) -> (r: String)
    ensures
        r@ == table_ref(d, opt_view(*schema), table@),
{
    match d {
        Dialect::Postgres | Dialect::Oracle => qualified_table_name(schema, table),
        _ => {
            let mut s = String::new();
            push_quoted(&mut s, d, table);
            s
        },
    }
}

// ---------------------------------------------------------------------------
// Table creation
// ---------------------------------------------------------------------------
/// The definition of one column in a table creation statement.
pub open spec fn column_def(d: Dialect, c: ColumnView) -> Seq<char> {
    "  "@ + quoted(d, c.name) + " "@ + ddl_type(d, c.data_type)
}

pub open spec fn column_defs(d: Dialect, cols: Seq<ColumnView>) -> Seq<Seq<char>> {
    cols.map_values(|c: ColumnView| column_def(d, c))
}

/// The statement that creates the table: MySQL and PostgreSQL create it only
/// if it does not exist; Oracle and Dameng first look it up themselves.
pub open spec fn spec_create_table_sql(d: Dialect, tref: Seq<char>, cols: Seq<ColumnView>) -> Seq<
    char,
> {
    (if d is MySql || d is Postgres {
        "CREATE TABLE IF NOT EXISTS "@
    } else {
        "CREATE TABLE "@
    }) + tref + " (\n"@ + join(column_defs(d, cols), ",\n"@) + "\n)"@
}

/// The table creation statement of dialect `d` for the table that `metadata`
/// describes, in `schema` where the dialect names one.
pub fn create_table_sql(d: Dialect, schema: &Option<String>, metadata: &FlgMetadata) -> (r: String)
    ensures
        r@ == spec_create_table_sql(
            d,
            table_ref(d, opt_view(*schema), metadata@.table_name),
            metadata@.columns,
        ),
{
    let ghost cols = metadata@.columns;
    let mut defs: Vec<String> = Vec::new();
    let mut i: usize = 0;
    while i < metadata.columns.len()
        invariant
            cols == metadata@.columns,
            i <= cols.len(),
            defs@.map_values(|p: String| p@) == column_defs(d, cols.take(i as int)),
        decreases cols.len() - i,
    {
        let col = &metadata.columns[i];
        let mut s = String::from_str("  ");
        push_quoted(&mut s, d, col.name.as_str());
        s.append(" ");
        let t = ddl_type_string(d, col.data_type);
        s.append(t.as_str());
        let ghost before = defs@;
        let ghost sv = s@;
        defs.push(s);
        assert(cols[i as int] == metadata.columns@[i as int]@);
        assert(sv == column_def(d, cols[i as int]));
        assert(defs@.map_values(|p: String| p@) =~= before.map_values(|p: String| p@).push(sv));
        assert(column_defs(d, cols.take(i + 1)) =~= column_defs(d, cols.take(i as int)).push(
            column_def(d, cols[i as int]),
        ));
        i = i + 1;
    }
    assert(cols.take(cols.len() as int) =~= cols);
    let mut sql = match d {
        Dialect::MySql | Dialect::Postgres => String::from_str("CREATE TABLE IF NOT EXISTS "),
        _ => String::from_str("CREATE TABLE "),
    };
    let tref = table_ref_string(d, schema, metadata.table_name.as_str());
    sql.append(tref.as_str());
    sql.append(" (\n");
    let body = join_strings(&defs, ",\n");
    sql.append(body.as_str());
    sql.append("\n)");
    sql
}

/// Dameng's look-up of a table before creating it.
pub open spec fn spec_dm_table_exists_sql(table: Seq<char>) -> Seq<char> {
    "SELECT COUNT(*) FROM user_tables WHERE table_name = UPPER('"@ + table + "')"@
}

pub fn dm_table_exists_sql(table_name: &str) -> (r: String)
    ensures
        r@ == spec_dm_table_exists_sql(table_name@),
{
    let mut s = String::from_str("SELECT COUNT(*) FROM user_tables WHERE table_name = UPPER('");
    s.append(table_name);
    s.append("')");
    s
}

// ---------------------------------------------------------------------------
// Insertion
// ---------------------------------------------------------------------------
/// The cast that PostgreSQL applies to a parameter bound as text.
pub open spec fn pg_cast(t: ColumnType) -> Seq<char> {
    match t {
        ColumnType::Varchar(_) => "::TEXT"@,
        ColumnType::Decimal(_, _) => "::NUMERIC"@,
        ColumnType::Int(_) => "::BIGINT"@,
    }
}

/// The PostgreSQL cast suffix of a column type.
pub fn pg_cast_suffix(col_type: &ColumnType) -> (r: &'static str)
    ensures
        r@ == pg_cast(*col_type),
{
    match col_type {
        ColumnType::Varchar(_) => "::TEXT",
        ColumnType::Decimal(_, _) => "::NUMERIC",
        ColumnType::Int(_) => "::BIGINT",
    }
}

/// The parameter of a value: `param_no` counts the parameters of the whole
/// statement from 1 and `col_no` the columns of the row from 1. Oracle
/// turns an empty numeric value into NULL.
pub open spec fn placeholder(d: Dialect, t: ColumnType, param_no: nat, col_no: nat) -> Seq<char> {
    match d {
        Dialect::Postgres => "$"@ + dec(param_no) + pg_cast(t),
        Dialect::Oracle => if t is Varchar {
            ":"@ + dec(col_no)
        } else {
            "TO_NUMBER(NULLIF(:"@ + dec(col_no) + ", ''))"@
        },
        _ => "?"@,
    }
}

/// The parameters of row number `row` (from 0) in parentheses.
pub open spec fn row_tuple(d: Dialect, cols: Seq<ColumnView>, row: nat) -> Seq<char> {
    "("@ + join(
        Seq::new(
            cols.len(),
            |i: int| placeholder(d, cols[i].data_type, (row * cols.len() + i + 1) as nat, (i + 1) as nat),
        ),
        ","@,
    ) + ")"@
}

/// A statement that inserts `rows` rows into the table `tref`.
pub open spec fn spec_insert_sql(d: Dialect, tref: Seq<char>, cols: Seq<ColumnView>, rows: nat) -> Seq<
    char,
> {
    "INSERT INTO "@ + tref + " ("@ + join(cols.map_values(|c: ColumnView| quoted(d, c.name)), ","@)
        + ") VALUES "@ + join(Seq::new(rows, |r: int| row_tuple(d, cols, r as nat)), ","@)
}

fn placeholder_string(d: Dialect, t: ColumnType, param_no: usize, col_no: usize) -> (r: String)
    ensures
        r@ == placeholder(d, t, param_no as nat, col_no as nat),
{
    match d {
        Dialect::Postgres => {
            let mut s = String::from_str("$");
            push_uint(&mut s, param_no as u64);
            s.append(pg_cast_suffix(&t));
            s
        },
        Dialect::Oracle => match t {
            ColumnType::Varchar(_) => {
                let mut s = String::from_str(":");
                push_uint(&mut s, col_no as u64);
                s
            },
            _ => {
                let mut s = String::from_str("TO_NUMBER(NULLIF(:");
                push_uint(&mut s, col_no as u64);
                s.append(", ''))");
                s
            },
        },
        _ => String::from_str("?"),
    }
}

fn row_tuple_string(d: Dialect, metadata: &FlgMetadata, row: usize, base: usize) -> (r: String)
    requires
        base == row * metadata@.columns.len(),
        base + metadata@.columns.len() <= usize::MAX,
    ensures
        r@ == row_tuple(d, metadata@.columns, row as nat),
{
    let ghost cols = metadata@.columns;
    let n = metadata.columns.len();
    let mut parts: Vec<String> = Vec::new();
    let mut i: usize = 0;
    while i < n
        invariant
            cols == metadata@.columns,
            n == cols.len(),
            base == row * n,
            base + n <= usize::MAX,
            i <= n,
            parts@.len() == i,
            forall|k: int|
                0 <= k < i ==> (#[trigger] parts@[k])@ == placeholder(
                    d,
                    cols[k].data_type,
                    (row * n + k + 1) as nat,
                    (k + 1) as nat,
                ),
        decreases n - i,
    {
        assert(cols[i as int] == metadata.columns@[i as int]@);
        let p = placeholder_string(d, metadata.columns[i].data_type, base + i + 1, i + 1);
        parts.push(p);
        i = i + 1;
    }
    assert(parts@.map_values(|p: String| p@) =~= Seq::new(
        cols.len(),
        |i: int| placeholder(d, cols[i].data_type, (row * cols.len() + i + 1) as nat, (i + 1) as nat),
    ));
    let mut s = String::from_str("(");
    let inner = join_strings(&parts, ",");
    s.append(inner.as_str());
    s.append(")");
    s
}

/// The statement of dialect `d` that inserts `rows` rows into `table_name`
/// (in `schema` where the dialect names one). Oracle and Dameng prepare it
/// for one row and run it once per row.
pub fn insert_sql(
    d: Dialect,
    schema: &Option<String>,
    table_name: &str,
    metadata: &FlgMetadata,
    rows: usize,
) -> (r: String)
    requires
        rows * metadata@.columns.len() <= usize::MAX,
    ensures
        r@ == spec_insert_sql(
            d,
            table_ref(d, opt_view(*schema), table_name@),
            metadata@.columns,
            rows as nat,
        ),
{
    let ghost cols = metadata@.columns;
    let n = metadata.columns.len();
    let mut names: Vec<String> = Vec::new();
    let mut i: usize = 0;
    while i < n
        invariant
            cols == metadata@.columns,
            n == cols.len(),
            i <= n,
            names@.map_values(|p: String| p@) == cols.take(i as int).map_values(
                |c: ColumnView| quoted(d, c.name),
            ),
        decreases n - i,
    {
        let mut s = String::new();
        push_quoted(&mut s, d, metadata.columns[i].name.as_str());
        let ghost before = names@;
        let ghost sv = s@;
        names.push(s);
        assert(cols[i as int] == metadata.columns@[i as int]@);
        assert(sv == quoted(d, cols[i as int].name));
        assert(names@.map_values(|p: String| p@) =~= before.map_values(|p: String| p@).push(sv));
        assert(cols.take(i + 1).map_values(|c: ColumnView| quoted(d, c.name)) =~= cols.take(
            i as int,
        ).map_values(|c: ColumnView| quoted(d, c.name)).push(quoted(d, cols[i as int].name)));
        i = i + 1;
    }
    assert(cols.take(n as int) =~= cols);
    let mut tuples: Vec<String> = Vec::new();
    let mut r: usize = 0;
    let mut base: usize = 0;
    while r < rows
        invariant
            cols == metadata@.columns,
            n == cols.len(),
            rows * n <= usize::MAX,
            r <= rows,
            base == r * n,
            tuples@.len() == r,
            forall|k: int| 0 <= k < r ==> (#[trigger] tuples@[k])@ == row_tuple(d, cols, k as nat),
        decreases rows - r,
    {
        assert(base + n <= rows * n) by (nonlinear_arith)
            requires
                base == r * n,
                r < rows,
        ;
        let t = row_tuple_string(d, metadata, r, base);
        tuples.push(t);
        assert((r + 1) * n == r * n + n) by (nonlinear_arith);
        base = base + n;
        r = r + 1;
    }
    assert(tuples@.map_values(|p: String| p@) =~= Seq::new(
        rows as nat,
        |k: int| row_tuple(d, cols, k as nat),
    ));
    let mut sql = String::from_str("INSERT INTO ");
    let tref = table_ref_string(d, schema, table_name);
    sql.append(tref.as_str());
    sql.append(" (");
    let names_joined = join_strings(&names, ",");
    sql.append(names_joined.as_str());
    sql.append(") VALUES ");
    let values = join_strings(&tuples, ",");
    sql.append(values.as_str());
    sql
}

/// Whether PostgreSQL is sent NULL for `value` of a column of type `t`:
/// numeric columns take blank values as NULL.
pub open spec fn spec_pg_binds_null(t: ColumnType, value: Seq<char>) -> bool {
    !(t is Varchar) && crate::text::trim(value).len() == 0
}

/// PostgreSQL is sent NULL exactly for a value of a DECIMAL or INT column
/// that holds nothing but whitespace (the empty value among them); a
/// VARCHAR value is always sent as text.
pub proof fn law_pg_null_for_blank_numbers(t: ColumnType, value: Seq<char>)
    ensures
        spec_pg_binds_null(t, value) <==> ((t is Decimal || t is Int) && forall|i: int|
            0 <= i < value.len() ==> crate::text::is_ws(#[trigger] value[i])),
        t is Varchar ==> !spec_pg_binds_null(t, value),
{
    crate::text::lemma_trim_empty_iff_blank(value);
}

pub fn pg_binds_null(t: ColumnType, value: &str) -> (r: bool)
    ensures
        r == spec_pg_binds_null(t, value@),
{
    match t {
        ColumnType::Varchar(_) => false,
        _ => {
            let cs = to_chars(value);
            let (a, b) = crate::text::trim_bounds(&cs, 0, cs.len());
            assert(cs@.subrange(0, cs@.len() as int) =~= cs@);
            a == b
        },
    }
}

// ---------------------------------------------------------------------------
// Row counts
// ---------------------------------------------------------------------------
/// The statement that counts the rows of a table.
pub open spec fn spec_row_count_sql(d: Dialect, tref: Seq<char>) -> Seq<char> {
    match d {
        Dialect::MySql | Dialect::Postgres => "SELECT COUNT(*) as cnt FROM "@ + tref,
        _ => "SELECT COUNT(*) FROM "@ + tref,
    }
}

pub fn row_count_sql(d: Dialect, schema: &Option<String>, table_name: &str) -> (r: String)
    ensures
        r@ == spec_row_count_sql(d, table_ref(d, opt_view(*schema), table_name@)),
{
    let mut s = match d {
        Dialect::MySql | Dialect::Postgres => String::from_str("SELECT COUNT(*) as cnt FROM "),
        _ => String::from_str("SELECT COUNT(*) FROM "),
    };
    let tref = table_ref_string(d, schema, table_name);
    s.append(tref.as_str());
    s
}

// ---------------------------------------------------------------------------
// Connections
// ---------------------------------------------------------------------------
/// Whether a database type is openGauss or GaussDB, ASCII case ignored.
pub open spec fn spec_is_gauss_compatible(db_type: Seq<char>) -> bool {
    lower(db_type) == "opengauss"@ || lower(db_type) == "gaussdb"@
}

pub fn is_gauss_compatible(db_type: &str) -> (r: bool)
    ensures
        r == spec_is_gauss_compatible(db_type@),
{
    let cs = to_chars(db_type);
    lower_eq_lit(&cs, "opengauss") || lower_eq_lit(&cs, "gaussdb")
}

/// Whether Dameng can be loaded on the platform that `os` and `arch` name
/// (as Rust names them): Windows on x86-64, and Linux on x86-64 or ARM64.
pub open spec fn spec_dameng_supported(os: Seq<char>, arch: Seq<char>) -> bool {
    (os == "windows"@ && arch == "x86_64"@) || (os == "linux"@ && (arch == "x86_64"@ || arch
        == "aarch64"@))
}

pub fn dameng_supported(os: &str, arch: &str) -> (r: bool)
    ensures
        r == spec_dameng_supported(os@, arch@),
{
    (str_eq(os, "windows") && str_eq(arch, "x86_64")) || (str_eq(os, "linux") && (str_eq(
        arch,
        "x86_64",
    ) || str_eq(arch, "aarch64")))
}

/// The `search_path` sent at connection: the schema, trimmed, unless it is blank.
pub open spec fn spec_search_path(schema: Option<Seq<char>>) -> Option<Seq<char>> {
    match schema {
        Some(s) => if crate::text::trim(s).len() == 0 {
            None
        } else {
            Some(crate::text::trim(s))
        },
        None => None,
    }
}

/// What a PostgreSQL-kind connection is opened with, beyond the address and
/// credentials of the configuration.
pub struct PgConnectPlan {
    /// openGauss and GaussDB: send no `extra_float_digits` and do not use TLS.
    pub gauss_compatible: bool,
    pub search_path: Option<String>,
}

/// The connection options of a PostgreSQL-kind database.
pub fn pg_connect_plan(config: &DatabaseConfig) -> (r: PgConnectPlan)
    ensures
        r.gauss_compatible == spec_is_gauss_compatible(config.db_type@),
        opt_view(r.search_path) == spec_search_path(opt_view(config.schema)),
{
    let gauss = is_gauss_compatible(config.db_type.as_str());
    let search_path = match &config.schema {
        Some(s) => {
            let cs = to_chars(s.as_str());
            let (a, b) = crate::text::trim_bounds(&cs, 0, cs.len());
            assert(cs@.subrange(0, cs@.len() as int) =~= cs@);
            if a == b {
                None
            } else {
                Some(crate::text::substring(s.as_str(), a, b))
            }
        },
        None => None,
    };
    PgConnectPlan { gauss_compatible: gauss, search_path }
}

/// `s` with each `}` doubled, as ODBC wants it inside braces.
pub open spec fn escape_braces(s: Seq<char>) -> Seq<char>
    decreases s.len(),
{
    if s.len() == 0 {
        seq![]
    } else {
        escape_braces(s.drop_last()) + (if s.last() == '}' {
            seq!['}', '}']
        } else {
            seq![s.last()]
        })
    }
}

/// The ODBC connection string of a Dameng database reached through the
/// driver `driver`.
pub open spec fn spec_dm_connection_string(
    driver: Seq<char>,
    host: Seq<char>,
    port: nat,
    database: Seq<char>,
    user: Seq<char>,
    password: Seq<char>,
) -> Seq<char> {
    "Driver={"@ + driver + "};Server="@ + host + ";TCP_PORT="@ + dec(port) + ";DATABASE="@
        + database + ";UID="@ + user + ";PWD={"@ + escape_braces(password) + "}"@
}

fn push_escaped_braces(s: &mut String, text: &str)
    ensures
        final(s)@ == old(s)@ + escape_braces(text@),
{
    let cs = to_chars(text);
    let ghost start = s@;
    let mut i: usize = 0;
    assert(cs@.take(0) =~= Seq::<char>::empty());
    while i < cs.len()
        invariant
            cs@ == text@,
            i <= cs@.len(),
            s@ == start + escape_braces(cs@.take(i as int)),
        decreases cs@.len() - i,
    {
        assert(cs@.take(i + 1).drop_last() =~= cs@.take(i as int));
        if cs[i] == '}' {
            s.append("}}");
            proof {
                reveal_strlit("}}");
            }
            assert(s@ =~= start + escape_braces(cs@.take(i + 1)));
        } else {
            let one = text.substring_char(i, i + 1);
            assert(one@ =~= seq![cs@[i as int]]);
            s.append(one);
            assert(s@ =~= start + escape_braces(cs@.take(i + 1)));
        }
        i = i + 1;
    }
    assert(cs@.take(cs@.len() as int) =~= cs@);
}

/// A Dameng loader: each operation opens its own ODBC connection with this
/// connection string.
pub struct DmLoader {
    connection_string: String,
}

impl DmLoader {
    pub closed spec fn spec_connection_string(&self) -> Seq<char> {
        self.connection_string@
    }

    /// The loader for `config` through the ODBC driver `driver_spec` (a
    /// driver file or a registered driver name).
    pub fn with_driver(driver_spec: &str, config: &DatabaseConfig) -> (r: DmLoader)
        ensures
            r.spec_connection_string() == spec_dm_connection_string(
                driver_spec@,
                config.host@,
                config.port as nat,
                config.database@,
                config.username@,
                config.password@,
            ),
    {
        let mut s = String::from_str("Driver={");
        s.append(driver_spec);
        s.append("};Server=");
        s.append(config.host.as_str());
        s.append(";TCP_PORT=");
        push_uint(&mut s, config.port as u64);
        s.append(";DATABASE=");
        s.append(config.database.as_str());
        s.append(";UID=");
        s.append(config.username.as_str());
        s.append(";PWD={");
        push_escaped_braces(&mut s, config.password.as_str());
        s.append("}");
        DmLoader { connection_string: s }
    }

    pub fn connection_string(&self) -> (r: &str)
        ensures
            r@ == self.spec_connection_string(),
    {
        self.connection_string.as_str()
    }
}

} // verus!
