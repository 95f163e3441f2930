//! Loading one table: whether its data file is streamed, which rows a
//! resumed load leaves out, how rows are grouped into insert batches, and how
//! the outcome of each batch is tallied into the table's report.
//!
//! The inserts themselves are the caller's: it hands each batch to the
//! database and gives the outcome back to [`LoadTally`] or [`StreamingLoad`].
use vstd::prelude::*;
use vstd::slice::slice_subrange;
use vstd::string::*;
use crate::database::{safe_batch_size, spec_safe_batch_size};
use crate::models::{DataRow, FlgMetadata, FlgView, TableReport};
use crate::parser::dat::{
    chunks, lemma_chunks_of_full, parse_row_bytes, row_bytes, row_values, rows_bytes, rows_of,
    strip_cr, RowBatcher,
};
use crate::text::{dec, push_uint};

verus! {

/// Rows per insert batch asked for; [`safe_batch_size`] may lower it.
pub const DEFAULT_BATCH_SIZE: usize = 1000;

/// Data files larger than this many bytes are streamed.
pub const STREAMING_THRESHOLD_BYTES: u64 = 100 * 1024 * 1024;

/// Whether a data file of `file_size` bytes is loaded as a stream rather
/// than parsed whole first.
pub fn use_streaming(file_size: u64) -> (r: bool)
    ensures
        r == (file_size > STREAMING_THRESHOLD_BYTES),
{
    file_size > STREAMING_THRESHOLD_BYTES
}

/// The rows that a resumed load leaves out: those the table already holds,
/// at most all of them.
pub open spec fn spec_resume_skip(existing: nat, total: nat) -> nat {
    if existing < total {
        existing
    } else {
        total
    }
}

/// How many of `total` rows are skipped when the table already holds `existing`.
pub fn resume_skip(existing: usize, total: usize) -> (r: usize)
    ensures
        r == spec_resume_skip(existing as nat, total as nat),
{
    if existing > 0 && existing < total {
        existing
    } else if existing >= total {
        total
    } else {
        0
    }
}

/// The batch size of a table of `column_count` columns.
pub open spec fn table_batch_size(column_count: nat) -> nat {
    spec_safe_batch_size(column_count, DEFAULT_BATCH_SIZE as nat)
}

pub open spec fn batches_view(bs: Seq<Vec<DataRow>>) -> Seq<Seq<DataRow>> {
    bs.map_values(|b: Vec<DataRow>| b@)
}

/// A table loaded at once: of its parsed `rows`, those after the first
/// `existing` are cut, in order, into batches of the table's batch size.
/// Gives how many rows were skipped and the batches.
pub fn plan_inmemory(rows: Vec<DataRow>, existing: usize, column_count: usize) -> (r: (
    usize,
    Vec<Vec<DataRow>>,
))
    ensures
        r.0 == spec_resume_skip(existing as nat, rows@.len()),
        batches_view(r.1@) == chunks(rows@.skip(r.0 as int), table_batch_size(column_count as nat)),
{
    let skipped = resume_skip(existing, rows.len());
    let k = safe_batch_size(column_count, DEFAULT_BATCH_SIZE);
    let mut rows = rows;
    let mut rest = rows.split_off(skipped);
    let ghost src = rest@;
    let n = rest.len();
    let mut stack: Vec<DataRow> = Vec::new();
    while rest.len() > 0
        invariant
            n == src.len(),
            rest@.len() <= n,
            rest@ == src.take(rest@.len() as int),
            stack@.len() == n - rest@.len(),
            forall|t: int| 0 <= t < stack@.len() ==> #[trigger] stack@[t] == src[n - 1 - t],
        decreases rest@.len(),
    {
        let ghost m = rest@.len();
        let x = rest.pop().unwrap();
        assert(x == src[m - 1]);
        stack.push(x);
        assert(rest@ =~= src.take(rest@.len() as int));
    }
    let mut batches: Vec<Vec<DataRow>> = Vec::new();
    let mut batcher = RowBatcher::new(k);
    let mut j: usize = 0;
    assert(batches_view(batches@).flatten() + batcher.pending() =~= src.take(0));
    while stack.len() > 0
        invariant
            n == src.len(),
            j <= n,
            stack@.len() == n - j,
            forall|t: int| 0 <= t < stack@.len() ==> #[trigger] stack@[t] == src[n - 1 - t],
            batcher.wf(),
            batcher.size() == k,
            k > 0,
            forall|i: int| 0 <= i < batches@.len() ==> (#[trigger] batches@[i])@.len() == k,
            batches_view(batches@).flatten() + batcher.pending() == src.take(j as int),
        decreases stack@.len(),
    {
        let ghost top = (stack@.len() - 1) as int;
        let x = stack.pop().unwrap();
        assert(x == src[j as int]);
        let ghost old_pending = batcher.pending();
        let ghost old_batches = batches@;
        match batcher.push(x) {
            Some(full) => {
                batches.push(full);
                proof {
                    assert(batches_view(batches@) =~= batches_view(old_batches).push(full@));
                    batches_view(old_batches).lemma_flatten_push(full@);
                    assert forall|i: int| 0 <= i < batches@.len() implies (
                    #[trigger] batches@[i])@.len() == k by {
                        if i < old_batches.len() {
                            assert(batches@[i] == old_batches[i]);
                        }
                    }
                }
            },
            None => {},
        }
        assert(src.take(j + 1) =~= src.take(j as int).push(src[j as int]));
        j = j + 1;
        assert(batches_view(batches@).flatten() + batcher.pending() =~= src.take(j as int));
    }
    assert(src.take(n as int) =~= src);
    let ghost full = batches_view(batches@);
    let ghost tail = batcher.pending();
    proof {
        assert forall|i: int| 0 <= i < full.len() implies (#[trigger] full[i]).len() == k by {
            assert(full[i] == batches@[i]@);
        }
        lemma_chunks_of_full(full, tail, k as nat);
    }
    match batcher.finish() {
        Some(last) => {
            let ghost before = batches@;
            batches.push(last);
            assert(batches_view(batches@) =~= batches_view(before).push(last@));
        },
        None => {},
    }
    (skipped, batches)
}

// ---------------------------------------------------------------------------
// Tallies
// ---------------------------------------------------------------------------
/// The error recorded when a batch of a table loaded at once is refused.
pub open spec fn insert_error_text(table: Seq<char>, err: Seq<char>) -> Seq<char> {
    "批量插入表 "@ + table + " 失败: "@ + err
}

/// The error recorded when a batch of a streamed table is refused, with the
/// number of data lines read so far.
pub open spec fn stream_insert_error_text(table: Seq<char>, rows_read: nat, err: Seq<char>) -> Seq<
    char,
> {
    "流式批量插入表 "@ + table + " 失败 (累计行号 "@ + dec(rows_read) + "): "@ + err
}

/// Rows inserted, rows refused, and the errors met while loading a table.
pub struct LoadTally {
    pub success: usize,
    pub failed: usize,
    pub errors: Vec<String>,
}

impl LoadTally {
    pub open spec fn errors_view(&self) -> Seq<Seq<char>> {
        self.errors@.map_values(|e: String| e@)
    }

    pub fn new() -> (t: LoadTally)
        ensures
            t.success == 0,
            t.failed == 0,
            t.errors@.len() == 0,
    {
        LoadTally { success: 0, failed: 0, errors: Vec::new() }
    }

    fn record_with(&mut self, outcome: Result<usize, String>, batch_len: usize, message: String)
        requires
            outcome matches Ok(n) ==> old(self).success + n <= usize::MAX,
            outcome is Err ==> old(self).failed + batch_len <= usize::MAX,
        ensures
            match outcome {
                Ok(n) => final(self).success == old(self).success + n && final(self).failed == old(
                    self,
                ).failed && final(self).errors@ == old(self).errors@,
                Err(_) => final(self).success == old(self).success && final(self).failed == old(
                    self,
                ).failed + batch_len && final(self).errors_view() == old(self).errors_view().push(
                    message@,
                ),
            },
    {
        match outcome {
            Ok(n) => {
                self.success = self.success + n;
            },
            Err(_) => {
                self.failed = self.failed + batch_len;
                let ghost before = self.errors@;
                self.errors.push(message);
                assert(self.errors_view() =~= before.map_values(|e: String| e@).push(message@));
            },
        }
    }

    /// Records the outcome of inserting a batch of `batch_len` rows of a
    /// table loaded at once: the rows the database reports inserted, or the
    /// whole batch refused with the database's error.
    pub fn record_batch(&mut self, table: &str, batch_len: usize, outcome: Result<usize, String>)
        requires
            outcome matches Ok(n) ==> old(self).success + n <= usize::MAX,
            outcome is Err ==> old(self).failed + batch_len <= usize::MAX,
        ensures
            match outcome {
                Ok(n) => final(self).success == old(self).success + n && final(self).failed == old(
                    self,
                ).failed && final(self).errors@ == old(self).errors@,
                Err(e) => final(self).success == old(self).success && final(self).failed == old(
                    self,
                ).failed + batch_len && final(self).errors_view() == old(self).errors_view().push(
                    insert_error_text(table@, e@),
                ),
            },
    {
        let message = match &outcome {
            Ok(_) => String::new(),
            Err(e) => {
                let mut m = String::from_str("批量插入表 ");
                m.append(table);
                m.append(" 失败: ");
                m.append(e.as_str());
                m
            },
        };
        self.record_with(outcome, batch_len, message);
    }

    /// The report of a table loaded at once: `row_count` rows (ROWCOUNT),
    /// of which `skipped` were in the table before this load.
    pub fn into_report(self, table_name: String, row_count: usize, skipped: usize, elapsed_ms: u64) -> (r: TableReport)
        requires
            self.success + skipped <= usize::MAX,
        ensures
            r.table_name@ == table_name@,
            r.row_count == row_count,
            r.success_count == self.success + skipped,
            r.failed_count == self.failed,
            r.elapsed_ms == elapsed_ms,
            r.errors@ == self.errors@,
    {
        TableReport {
            table_name,
            row_count,
            success_count: self.success + skipped,
            failed_count: self.failed,
            elapsed_ms,
            errors: self.errors,
        }
    }
}

/// Whether a loading task runs, and whether it was asked to stop.
pub struct LoadingState {
    pub is_loading: bool,
    pub cancel: bool,
}

impl LoadingState {
    /// No task runs and no stop was asked for.
    pub fn new() -> (s: LoadingState)
        ensures
            !s.is_loading,
            !s.cancel,
    {
        LoadingState { is_loading: false, cancel: false }
    }

    /// Starts a task: refused while one runs, with nothing changed;
    /// otherwise the task runs and an earlier stop request is forgotten.
    pub fn start(&mut self) -> (r: Result<(), String>)
        ensures
            old(self).is_loading ==> (r matches Err(m) && m@ == "已有加载任务在执行中"@ && *final(self)
                == *old(self)),
            !old(self).is_loading ==> (r is Ok && final(self).is_loading && !final(self).cancel),
    {
        if self.is_loading {
            return Err(String::from_str("已有加载任务在执行中"));
        }
        self.is_loading = true;
        self.cancel = false;
        Ok(())
    }

    /// Asks the running task, if any, to stop between tables.
    pub fn stop(&mut self)
        ensures
            final(self).cancel,
            final(self).is_loading == old(self).is_loading,
    {
        self.cancel = true;
    }

    /// The task ended, as it completed, failed or stopped.
    pub fn finish(&mut self)
        ensures
            !final(self).is_loading,
            final(self).cancel == old(self).cancel,
    {
        self.is_loading = false;
    }
}

/// The status of a finished table in progress reports.
pub fn progress_status(failed_rows: usize) -> (r: &'static str)
    ensures
        r@ == (if failed_rows > 0 {
            "completed_with_errors"@
        } else {
            "completed"@
        }),
{
    if failed_rows > 0 {
        "completed_with_errors"
    } else {
        "completed"
    }
}

// ---------------------------------------------------------------------------
// Streaming
// ---------------------------------------------------------------------------
/// The content of a line read up to and including its `\n`: without the
/// `\n`, then without one `\r`.
pub open spec fn line_content(raw: Seq<u8>) -> Seq<u8> {
    strip_cr(
        if raw.len() > 0 && raw.last() == 10u8 {
            raw.drop_last()
        } else {
            raw
        },
    )
}

/// Whether a line read up to and including its `\n` holds anything but
/// its line end.
pub fn line_has_content(raw: &[u8]) -> (r: bool)
    ensures
        r == (line_content(raw@).len() > 0),
{
    let mut end = raw.len();
    if end > 0 && raw[end - 1] == 10u8 {
        end = end - 1;
    }
    let ghost a = raw@.subrange(0, end as int);
    if end > 0 && raw[end - 1] == 13u8 {
        end = end - 1;
    }
    assert(raw@.subrange(0, end as int) =~= line_content(raw@)) by {
        if raw@.len() > 0 && raw@.last() == 10u8 {
            assert(a =~= raw@.drop_last());
        } else {
            assert(a =~= raw@);
        }
        if a.len() > 0 && a.last() == 13u8 {
            assert(raw@.subrange(0, end as int) =~= a.drop_last());
        }
    }
    end > 0
}

/// The rows that streaming the non-empty data lines `lines` loads: the
/// first `existing` lines are skipped, and lines that are not rows of the
/// table are left out.
pub open spec fn streamed_rows(lines: Seq<Seq<u8>>, existing: nat, meta: FlgView) -> Seq<
    Seq<Seq<u8>>,
> {
    if existing >= lines.len() {
        seq![]
    } else {
        rows_of(lines.skip(existing as int), meta.columns, meta.row_length)
    }
}

/// One more line adds its row, if it is one, to the rows of the lines before.
pub proof fn lemma_rows_of_push(lines: Seq<Seq<u8>>, x: Seq<u8>, meta: FlgView)
    ensures
        rows_of(lines.push(x), meta.columns, meta.row_length) == rows_of(
            lines,
            meta.columns,
            meta.row_length,
        ) + (match row_values(x, meta.columns, meta.row_length) {
            Some(v) => seq![v],
            None => seq![],
        }),
    decreases lines.len(),
{
    let tail = match row_values(x, meta.columns, meta.row_length) {
        Some(v) => seq![v],
        None => Seq::<Seq<Seq<u8>>>::empty(),
    };
    if lines.len() == 0 {
        assert(lines.push(x).drop_first() =~= Seq::<Seq<u8>>::empty());
        assert(lines.push(x)[0] == x);
        assert(rows_of(Seq::<Seq<u8>>::empty(), meta.columns, meta.row_length) =~= Seq::<
            Seq<Seq<u8>>,
        >::empty());
        assert(rows_of(lines.push(x), meta.columns, meta.row_length) =~= tail);
    } else {
        assert(lines.push(x).drop_first() =~= lines.drop_first().push(x));
        lemma_rows_of_push(lines.drop_first(), x, meta);
        let head = match row_values(lines[0], meta.columns, meta.row_length) {
            Some(v) => seq![v],
            None => Seq::<Seq<Seq<u8>>>::empty(),
        };
        assert(head + (rows_of(lines.drop_first(), meta.columns, meta.row_length) + tail) =~= (head
            + rows_of(lines.drop_first(), meta.columns, meta.row_length)) + tail);
    }
}

/// A table loaded as a stream of data lines. Each line is fed as it is read;
/// a batch is handed out as soon as it is full, and the last, partial batch
/// at the end. The lines before the first `existing` are skipped, as the
/// table already holds their rows.
pub struct StreamingLoad {
    metadata: FlgMetadata,
    existing: usize,
    rows_read: usize,
    rows_skipped: usize,
    batcher: RowBatcher,
    tally: LoadTally,
    lines: Ghost<Seq<Seq<u8>>>,
    handed: Ghost<Seq<Seq<Seq<Seq<u8>>>>>,
    ended: Ghost<bool>,
}

impl StreamingLoad {
    pub closed spec fn meta(&self) -> FlgView {
        self.metadata@
    }

    pub closed spec fn existing(&self) -> nat {
        self.existing as nat
    }

    pub closed spec fn batch_size(&self) -> nat {
        self.batcher.size()
    }

    /// The non-empty lines fed so far, without their line ends.
    pub closed spec fn lines(&self) -> Seq<Seq<u8>> {
        self.lines@
    }

    /// The values of the rows of each batch handed out so far.
    pub closed spec fn handed_out(&self) -> Seq<Seq<Seq<Seq<u8>>>> {
        self.handed@
    }

    /// The rows of the batch being filled.
    pub closed spec fn pending(&self) -> Seq<DataRow> {
        self.batcher.pending()
    }

    pub closed spec fn success(&self) -> nat {
        self.tally.success as nat
    }

    pub closed spec fn failed(&self) -> nat {
        self.tally.failed as nat
    }

    pub closed spec fn errors(&self) -> Seq<Seq<char>> {
        self.tally.errors_view()
    }

    /// Whether the stream was ended by [`StreamingLoad::finish`].
    pub closed spec fn ended(&self) -> bool {
        self.ended@
    }

    /// Rows skipped because the table already held them.
    pub open spec fn skipped(&self) -> nat {
        spec_resume_skip(self.existing(), self.lines().len())
    }

    pub closed spec fn wf(&self) -> bool {
        &&& self.batcher.wf()
        &&& self.batcher.size() == table_batch_size(self.metadata@.columns.len())
        &&& self.rows_read == self.lines@.len()
        &&& self.rows_skipped == spec_resume_skip(self.existing as nat, self.lines@.len())
        &&& !self.ended@ ==> forall|i: int|
            0 <= i < self.handed@.len() ==> (#[trigger] self.handed@[i]).len()
                == self.batcher.size()
        &&& self.ended@ ==> self.batcher.pending().len() == 0 && self.handed@ == chunks(
            streamed_rows(self.lines@, self.existing as nat, self.metadata@),
            self.batcher.size(),
        )
        &&& self.handed@.flatten() + rows_bytes(self.batcher.pending()) == streamed_rows(
            self.lines@,
            self.existing as nat,
            self.metadata@,
        )
    }

    /// A stream of the table that `metadata` describes, which already holds
    /// `existing` rows.
    pub fn new(metadata: FlgMetadata, existing: usize) -> (s: StreamingLoad)
        ensures
            s.wf(),
            !s.ended(),
            s.batch_size() >= 1,
            s.meta() == metadata@,
            s.existing() == existing,
            s.batch_size() == table_batch_size(metadata@.columns.len()),
            s.lines() == Seq::<Seq<u8>>::empty(),
            s.handed_out() == Seq::<Seq<Seq<Seq<u8>>>>::empty(),
            s.pending() == Seq::<DataRow>::empty(),
            s.success() == 0,
            s.failed() == 0,
            s.errors() == Seq::<Seq<char>>::empty(),
    {
        let k = safe_batch_size(metadata.columns.len(), DEFAULT_BATCH_SIZE);
        let s = StreamingLoad {
            metadata,
            existing,
            rows_read: 0,
            rows_skipped: 0,
            batcher: RowBatcher::new(k),
            tally: LoadTally::new(),
            lines: Ghost(Seq::empty()),
            handed: Ghost(Seq::empty()),
            ended: Ghost(false),
        };
        assert(s.handed@.flatten() + rows_bytes(s.batcher.pending()) =~= Seq::<
            Seq<Seq<u8>>,
        >::empty());
        assert(s.errors() =~= Seq::<Seq<char>>::empty());
        s
    }

    pub fn metadata(&self) -> (r: &FlgMetadata)
        ensures
            r@ == self.meta(),
    {
        &self.metadata
    }

    /// How many non-empty data lines were read.
    pub fn rows_read(&self) -> (r: usize)
        requires
            self.wf(),
        ensures
            r == self.lines().len(),
    {
        self.rows_read
    }

    /// Rows in the table so far: inserted by this load or held before it.
    pub fn loaded_rows(&self) -> (r: usize)
        requires
            self.wf(),
            self.success() + self.skipped() <= usize::MAX,
        ensures
            r == self.success() + self.skipped(),
    {
        self.tally.success + self.rows_skipped
    }

    pub fn failed_rows(&self) -> (r: usize)
        ensures
            r == self.failed(),
    {
        self.tally.failed
    }

    /// Rows inserted by this load so far.
    pub fn success_rows(&self) -> (r: usize)
        ensures
            r == self.success(),
    {
        self.tally.success
    }

    /// Rows skipped so far because the table already held them.
    pub fn skipped_rows(&self) -> (r: usize)
        requires
            self.wf(),
        ensures
            r == self.skipped(),
    {
        self.rows_skipped
    }

    /// Feeds one line as read, up to and including its `\n`. Empty lines
    /// are ignored. Hands out a batch when the line's row fills it.
    pub fn feed_line(&mut self, raw: &[u8]) -> (r: Option<Vec<DataRow>>)
        requires
            old(self).wf(),
            !old(self).ended(),
            old(self).lines().len() < usize::MAX,
        ensures
            final(self).wf(),
            !final(self).ended(),
            final(self).meta() == old(self).meta(),
            final(self).existing() == old(self).existing(),
            final(self).batch_size() == old(self).batch_size(),
            final(self).success() == old(self).success(),
            final(self).failed() == old(self).failed(),
            final(self).errors() == old(self).errors(),
            final(self).pending().len() < final(self).batch_size(),
            line_content(raw@).len() == 0 ==> r is None && final(self).lines() == old(self).lines()
                && final(self).pending() == old(self).pending(),
            line_content(raw@).len() > 0 ==> final(self).lines() == old(self).lines().push(
                line_content(raw@),
            ),
            match r {
                Some(b) => final(self).handed_out() == old(self).handed_out().push(rows_bytes(b@))
                    && final(self).pending().len() == 0,
                None => final(self).handed_out() == old(self).handed_out(),
            },
    {
        let mut end = raw.len();
        if end > 0 && raw[end - 1] == 10u8 {
            end = end - 1;
        }
        let ghost a = raw@.subrange(0, end as int);
        if end > 0 && raw[end - 1] == 13u8 {
            end = end - 1;
        }
        assert(raw@.subrange(0, end as int) =~= line_content(raw@)) by {
            if raw@.len() > 0 && raw@.last() == 10u8 {
                assert(a =~= raw@.drop_last());
            } else {
                assert(a =~= raw@);
            }
            if a.len() > 0 && a.last() == 13u8 {
                assert(raw@.subrange(0, end as int) =~= a.drop_last());
            }
        }
        if end == 0 {
            return None;
        }
        let line = slice_subrange(raw, 0, end);
        let ghost c = line@;
        let ghost old_lines = self.lines@;
        let ghost e = self.existing as nat;
        let ghost meta = self.metadata@;
        let ghost old_stream = streamed_rows(old_lines, e, meta);
        self.rows_read = self.rows_read + 1;
        self.lines = Ghost(self.lines@.push(c));
        if self.rows_read <= self.existing {
            self.rows_skipped = self.rows_skipped + 1;
            assert(streamed_rows(self.lines@, e, meta) =~= old_stream);
            return None;
        }
        proof {
            assert(old_lines.push(c).skip(e as int) =~= old_lines.skip(e as int).push(c));
            if e == old_lines.len() {
                assert(old_lines.skip(e as int) =~= Seq::<Seq<u8>>::empty());
            }
            lemma_rows_of_push(old_lines.skip(e as int), c, meta);
        }
        let ghost rows_before = rows_of(old_lines.skip(e as int), meta.columns, meta.row_length);
        assert(rows_before == old_stream);
        match parse_row_bytes(line, &self.metadata, self.rows_read) {
            Ok(row) => {
                let ghost rb = row_bytes(row);
                assert(row_values(c, meta.columns, meta.row_length) == Some(rb));
                let ghost old_pending = self.batcher.pending();
                let ghost old_handed = self.handed@;
                let pushed = self.batcher.push(row);
                match &pushed {
                    Some(full) => {
                        self.handed = Ghost(self.handed@.push(rows_bytes(full@)));
                        proof {
                            old_handed.lemma_flatten_push(rows_bytes(full@));
                            assert(rows_bytes(full@) =~= rows_bytes(old_pending).push(rb));
                            assert(rows_bytes(self.batcher.pending()) =~= Seq::<
                                Seq<Seq<u8>>,
                            >::empty());
                            assert forall|i: int|
                                0 <= i < self.handed@.len() implies (
                            #[trigger] self.handed@[i]).len() == self.batcher.size() by {
                                if i < old_handed.len() {
                                    assert(self.handed@[i] == old_handed[i]);
                                }
                            }
                        }
                    },
                    None => {
                        assert(rows_bytes(self.batcher.pending()) =~= rows_bytes(
                            old_pending,
                        ).push(rb));
                    },
                }
                assert(self.handed@.flatten() + rows_bytes(self.batcher.pending()) =~= streamed_rows(
                    self.lines@,
                    e,
                    meta,
                ));
                pushed
            },
            Err(_) => {
                assert(row_values(c, meta.columns, meta.row_length) is None);
                assert(streamed_rows(self.lines@, e, meta) =~= old_stream);
                None
            },
        }
    }

    /// Ends the stream: hands out the last, partial batch if it holds any
    /// row. The batches handed out are then the streamed rows cut, in
    /// order, into batches of the batch size.
    pub fn finish(&mut self) -> (r: Option<Vec<DataRow>>)
        requires
            old(self).wf(),
            !old(self).ended(),
        ensures
            final(self).wf(),
            final(self).ended(),
            final(self).meta() == old(self).meta(),
            final(self).existing() == old(self).existing(),
            final(self).batch_size() == old(self).batch_size(),
            final(self).lines() == old(self).lines(),
            final(self).success() == old(self).success(),
            final(self).failed() == old(self).failed(),
            final(self).errors() == old(self).errors(),
            final(self).pending().len() == 0,
            match r {
                Some(b) => b@.len() > 0 && final(self).handed_out() == old(self).handed_out().push(
                    rows_bytes(b@),
                ),
                None => final(self).handed_out() == old(self).handed_out(),
            },
            final(self).handed_out() == chunks(
                streamed_rows(final(self).lines(), final(self).existing(), final(self).meta()),
                final(self).batch_size(),
            ),
    {
        let k = safe_batch_size(self.metadata.columns.len(), DEFAULT_BATCH_SIZE);
        let ghost full = self.handed@;
        let ghost tail = rows_bytes(self.batcher.pending());
        proof {
            lemma_chunks_of_full(full, tail, k as nat);
        }
        let mut fresh = RowBatcher::new(k);
        std::mem::swap(&mut fresh, &mut self.batcher);
        let r = fresh.finish();
        self.ended = Ghost(true);
        match &r {
            Some(last) => {
                self.handed = Ghost(self.handed@.push(rows_bytes(last@)));
                proof {
                    full.lemma_flatten_push(rows_bytes(last@));
                    assert(rows_bytes(self.batcher.pending()) =~= Seq::<Seq<Seq<u8>>>::empty());
                    assert(rows_bytes(last@) == tail);
                }
            },
            None => {
                assert(rows_bytes(self.batcher.pending()) =~= Seq::<Seq<Seq<u8>>>::empty());
                assert(tail.len() == 0);
                assert(full.flatten() + tail =~= full.flatten());
            },
        }
        r
    }

    /// Records the outcome of inserting a handed-out batch of `batch_len`
    /// rows: the rows the database reports inserted, or the whole batch
    /// refused with the database's error and the number of lines read.
    pub fn record(&mut self, batch_len: usize, outcome: Result<usize, String>)
        requires
            old(self).wf(),
            outcome matches Ok(n) ==> old(self).success() + n <= usize::MAX,
            outcome is Err ==> old(self).failed() + batch_len <= usize::MAX,
        ensures
            final(self).wf(),
            final(self).ended() == old(self).ended(),
            final(self).meta() == old(self).meta(),
            final(self).existing() == old(self).existing(),
            final(self).batch_size() == old(self).batch_size(),
            final(self).lines() == old(self).lines(),
            final(self).handed_out() == old(self).handed_out(),
            final(self).pending() == old(self).pending(),
            match outcome {
                Ok(n) => final(self).success() == old(self).success() + n && final(self).failed()
                    == old(self).failed() && final(self).errors() == old(self).errors(),
                Err(e) => final(self).success() == old(self).success() && final(self).failed()
                    == old(self).failed() + batch_len && final(self).errors() == old(
                    self,
                ).errors().push(
                    stream_insert_error_text(old(self).meta().table_name, old(self).lines().len(), e@),
                ),
            },
    {
        let message = match &outcome {
            Ok(_) => String::new(),
            Err(e) => {
                let mut m = String::from_str("流式批量插入表 ");
                m.append(self.metadata.table_name.as_str());
                m.append(" 失败 (累计行号 ");
                push_uint(&mut m, self.rows_read as u64);
                m.append("): ");
                m.append(e.as_str());
                m
            },
        };
        self.tally.record_with(outcome, batch_len, message);
    }

    /// The report of the streamed table: as many rows as data lines were
    /// read, those skipped counted as loaded.
    pub fn into_report(self, elapsed_ms: u64) -> (r: TableReport)
        requires
            self.wf(),
            self.success() + self.skipped() <= usize::MAX,
        ensures
            r.table_name@ == self.meta().table_name,
            r.row_count == self.lines().len(),
            r.success_count == self.success() + self.skipped(),
            r.failed_count == self.failed(),
            r.elapsed_ms == elapsed_ms,
            r.errors@.map_values(|e: String| e@) == self.errors(),
    {
        TableReport {
            table_name: self.metadata.table_name,
            row_count: self.rows_read,
            success_count: self.tally.success + self.rows_skipped,
            failed_count: self.tally.failed,
            elapsed_ms,
            errors: self.tally.errors,
        }
    }
}

// ---------------------------------------------------------------------------
// Laws
// ---------------------------------------------------------------------------
/// A table loaded at once loads each of its rows that the table did not
/// already hold exactly once, in order, in batches of at most the table's
/// batch size, and none of the rows it already held.
pub proof fn law_inmemory_loads_remaining_rows(
    rows: Seq<DataRow>,
    existing: nat,
    column_count: nat,
    skipped: nat,
    batches: Seq<Seq<DataRow>>,
)
    requires
        skipped == spec_resume_skip(existing, rows.len()),
        batches == chunks(rows.skip(skipped as int), table_batch_size(column_count)),
    ensures
        batches.flatten() == rows.skip(skipped as int),
        skipped + batches.flatten().len() == rows.len(),
        forall|i: int|
            0 <= i < batches.len() ==> 0 < (#[trigger] batches[i]).len() <= table_batch_size(
                column_count,
            ),
{
    let k = table_batch_size(column_count);
    crate::parser::dat::law_chunks_partition(rows.skip(skipped as int), k);
    assert forall|i: int| 0 <= i < batches.len() implies 0 < (#[trigger] batches[i]).len() <= k by {
        lemma_chunk_sizes(rows.skip(skipped as int), k, i);
    }
}

proof fn lemma_chunk_sizes<T>(s: Seq<T>, k: nat, i: int)
    requires
        k > 0,
        0 <= i < chunks(s, k).len(),
    ensures
        0 < chunks(s, k)[i].len() <= k,
    decreases s.len(),
{
    if i > 0 && s.len() > k {
        lemma_chunk_sizes(s.skip(k as int), k, i - 1);
    }
}

/// The rows of some lines followed by others are the rows of the first
/// lines followed by the rows of the others.
pub proof fn lemma_rows_of_append(a: Seq<Seq<u8>>, b: Seq<Seq<u8>>, meta: FlgView)
    ensures
        rows_of(a + b, meta.columns, meta.row_length) == rows_of(a, meta.columns, meta.row_length)
            + rows_of(b, meta.columns, meta.row_length),
    decreases a.len(),
{
    if a.len() == 0 {
        assert(a + b =~= b);
    } else {
        assert((a + b).drop_first() =~= a.drop_first() + b);
        assert((a + b)[0] == a[0]);
        lemma_rows_of_append(a.drop_first(), b, meta);
        let head = match row_values(a[0], meta.columns, meta.row_length) {
            Some(v) => seq![v],
            None => Seq::<Seq<Seq<u8>>>::empty(),
        };
        assert(head + (rows_of(a.drop_first(), meta.columns, meta.row_length) + rows_of(
            b,
            meta.columns,
            meta.row_length,
        )) =~= (head + rows_of(a.drop_first(), meta.columns, meta.row_length)) + rows_of(
            b,
            meta.columns,
            meta.row_length,
        ));
    }
}

proof fn lemma_rows_of_all_rows(a: Seq<Seq<u8>>, meta: FlgView)
    requires
        forall|i: int| 0 <= i < a.len() ==> (#[trigger] row_values(a[i], meta.columns, meta.row_length)) is Some,
    ensures
        rows_of(a, meta.columns, meta.row_length).len() == a.len(),
    decreases a.len(),
{
    if a.len() > 0 {
        assert(row_values(a[0], meta.columns, meta.row_length) is Some);
        assert forall|i: int| 0 <= i < a.drop_first().len() implies (#[trigger] row_values(
            a.drop_first()[i],
            meta.columns,
            meta.row_length,
        )) is Some by {
            assert(a.drop_first()[i] == a[i + 1]);
            assert(row_values(a[i + 1], meta.columns, meta.row_length) is Some);
        }
        lemma_rows_of_all_rows(a.drop_first(), meta);
    }
}

/// Streaming a data file loads the rows that loading it at once loads,
/// when each of the lines a resumed load skips is a row of the table; the
/// stream skips lines, loading at once skips rows, so a faulty line among
/// them makes the two differ.
pub proof fn law_stream_matches_inmemory(data: Seq<u8>, meta: FlgView, existing: nat)
    requires
        forall|i: int|
            0 <= i < existing && 0 <= i < crate::parser::dat::dat_lines(data).len() ==> (
            #[trigger] row_values(crate::parser::dat::dat_lines(data)[i], meta.columns, meta.row_length)) is Some,
    ensures
        streamed_rows(crate::parser::dat::dat_lines(data), existing, meta) == crate::parser::dat::spec_dat_rows(
            data,
            meta,
        ).skip(
            spec_resume_skip(existing, crate::parser::dat::spec_dat_rows(data, meta).len()) as int,
        ),
{
    let lines = crate::parser::dat::dat_lines(data);
    let rows = crate::parser::dat::spec_dat_rows(data, meta);
    let e = if existing < lines.len() {
        existing as int
    } else {
        lines.len() as int
    };
    let a = lines.take(e);
    let b = lines.skip(e);
    assert(a + b =~= lines);
    lemma_rows_of_append(a, b, meta);
    assert forall|i: int| 0 <= i < a.len() implies (#[trigger] row_values(
        a[i],
        meta.columns,
        meta.row_length,
    )) is Some by {
        assert(a[i] == lines[i]);
        assert(row_values(lines[i], meta.columns, meta.row_length) is Some);
    }
    lemma_rows_of_all_rows(a, meta);
    let ra = rows_of(a, meta.columns, meta.row_length);
    let rb = rows_of(b, meta.columns, meta.row_length);
    assert(rows == ra + rb);
    assert(ra.len() == e);
    if existing >= lines.len() {
        assert(b =~= Seq::<Seq<u8>>::empty());
        assert(rb =~= Seq::<Seq<Seq<u8>>>::empty());
        assert(rows.len() == lines.len());
        assert(rows.skip(rows.len() as int) =~= Seq::<Seq<Seq<u8>>>::empty());
    } else {
        assert(rows.len() >= existing);
        if rows.len() == existing {
            assert(rb.len() == 0);
            assert(rows.skip(existing as int) =~= rb);
        }
        assert(rows.skip(existing as int) =~= rb);
    }
}

} // verus!
