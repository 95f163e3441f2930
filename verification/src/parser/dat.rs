//! `.dat` parsing: fixed-width rows, one per line, usually gzip compressed.
//!
//! Lines end in CRLF, which `ROWLENGTH` does not count. Fields are cut by
//! byte offsets (1-based, inclusive), so multi-byte UTF-8 text is handled,
//! and the spaces that pad a field on the right are removed.
use std::io::Read;
use vstd::prelude::*;
use vstd::slice::slice_subrange;
use vstd::string::*;
use vstd::utf8::{
    valid_utf8, encode_utf8, is_char_boundary_iff_not_is_continuation_byte,
    is_char_boundary_start_end_of_seq,
};
use crate::models::{ColumnDefinition, ColumnView, DataRow, FlgMetadata, FlgView};
use crate::path::{is_gzip, spec_is_gzip};
use crate::text::to_chars;

verus! {

// ---------------------------------------------------------------------------
// Outside calls
// ---------------------------------------------------------------------------
/// The data that the first gzip member of `data` holds, or `None` where it is
/// not valid gzip; what `flate2::read::GzDecoder` reads to its end.
pub uninterp spec fn gzip_decoded(data: Seq<u8>) -> Option<Seq<u8>>;

/// Decompresses the first gzip member of `data` with
/// `flate2::read::GzDecoder`, read by `read_to_end`. Trusted to give the flag
/// `true` exactly when the decoder reads to the end without error, and then
/// the bytes it read. On an error the bytes are those the decoder delivered
/// before it, which `read_to_end` keeps; how far that reaches depends on how
/// the reads were sized, and nothing is stated of them.
#[verifier::external_body]
fn gunzip(data: &[u8]) -> (r: (Vec<u8>, bool))
    ensures
        r.1 <==> gzip_decoded(data@) is Some,
        r.1 ==> gzip_decoded(data@) == Some(r.0@),
{
    let mut out = Vec::new();
    let ok = flate2::read::GzDecoder::new(data).read_to_end(&mut out).is_ok();
    (out, ok)
}

/// `std::str::from_utf8`: trusted to succeed exactly on well-formed UTF-8,
/// as its documentation states, giving a string of the same bytes.
#[verifier::external_body]
fn str_from_utf8(v: &[u8]) -> (r: Option<&str>)
    ensures
        r is Some <==> valid_utf8(v@),
        r matches Some(s) ==> s.spec_bytes() == v@,
{
    std::str::from_utf8(v).ok()
}

// ---------------------------------------------------------------------------
// Rows
// ---------------------------------------------------------------------------
/// Why a line is not a row of the table.
#[derive(Debug, Clone, Copy, PartialEq, Eq, Structural)]
pub enum RowError {
    /// The line does not have ROWLENGTH bytes.
    Length { line_no: usize, actual: usize, expected: usize },
    /// Column `column` has a start of 0 or an end before its start.
    FieldRange { column: usize, start: usize, end: usize },
    /// Column `column` ends after the end of the line.
    FieldBounds { column: usize, end: usize, actual: usize },
    /// The bytes of column `column` are not UTF-8.
    FieldUtf8 { column: usize },
}

/// `s` without trailing spaces.
pub open spec fn trim_spaces(s: Seq<u8>) -> Seq<u8>
    decreases s.len(),
{
    if s.len() > 0 && s.last() == 32u8 {
        trim_spaces(s.drop_last())
    } else {
        s
    }
}

/// The value of column number `i` (0-based) described by `col` in the row `bytes`.
pub open spec fn spec_field(bytes: Seq<u8>, col: ColumnView, i: nat) -> Result<Seq<u8>, RowError> {
    if col.start_pos == 0 || col.end_pos < col.start_pos {
        Err(
            RowError::FieldRange {
                column: i as usize,
                start: col.start_pos as usize,
                end: col.end_pos as usize,
            },
        )
    } else if col.end_pos > bytes.len() {
        Err(
            RowError::FieldBounds {
                column: i as usize,
                end: col.end_pos as usize,
                actual: bytes.len() as usize,
            },
        )
    } else {
        let sl = bytes.subrange(col.start_pos - 1, col.end_pos as int);
        if valid_utf8(sl) {
            Ok(trim_spaces(sl))
        } else {
            Err(RowError::FieldUtf8 { column: i as usize })
        }
    }
}

/// The values of the columns `cols`, in order; the first faulty column decides the error.
pub open spec fn spec_fields(bytes: Seq<u8>, cols: Seq<ColumnView>) -> Result<
    Seq<Seq<u8>>,
    RowError,
>
    decreases cols.len(),
{
    if cols.len() == 0 {
        Ok(seq![])
    } else {
        match spec_fields(bytes, cols.drop_last()) {
            Err(e) => Err(e),
            Ok(vs) => match spec_field(bytes, cols.last(), (cols.len() - 1) as nat) {
                Ok(v) => Ok(vs.push(v)),
                Err(e) => Err(e),
            },
        }
    }
}

/// The row that line number `line_no` with bytes `bytes` holds.
pub open spec fn spec_row(bytes: Seq<u8>, cols: Seq<ColumnView>, row_length: nat, line_no: nat) -> Result<
    Seq<Seq<u8>>,
    RowError,
> {
    if bytes.len() != row_length {
        Err(
            RowError::Length {
                line_no: line_no as usize,
                actual: bytes.len() as usize,
                expected: row_length as usize,
            },
        )
    } else {
        spec_fields(bytes, cols)
    }
}

/// The UTF-8 bytes of the values of a row.
pub open spec fn row_bytes(r: DataRow) -> Seq<Seq<u8>> {
    r.values@.map_values(|v: String| encode_utf8(v@))
}

/// The UTF-8 bytes of the values of some rows.
pub open spec fn rows_bytes(rs: Seq<DataRow>) -> Seq<Seq<Seq<u8>>> {
    rs.map_values(|r: DataRow| row_bytes(r))
}

/// Cuts column number `i` out of a row: the bytes from `start_pos` to
/// `end_pos` (1-based, inclusive) as text, without trailing spaces.
pub fn extract_field(bytes: &[u8], col: &ColumnDefinition, i: usize) -> (r: Result<String, RowError>)
    ensures
        match r {
            Ok(v) => spec_field(bytes@, col@, i as nat) == Ok::<Seq<u8>, RowError>(
                encode_utf8(v@),
            ),
            Err(e) => spec_field(bytes@, col@, i as nat) == Err::<Seq<u8>, RowError>(e),
        },
{
    if col.start_pos == 0 || col.end_pos < col.start_pos {
        return Err(RowError::FieldRange { column: i, start: col.start_pos, end: col.end_pos });
    }
    let start = col.start_pos - 1;
    let end = col.end_pos;
    if end > bytes.len() {
        return Err(RowError::FieldBounds { column: i, end, actual: bytes.len() });
    }
    let slice = slice_subrange(bytes, start, end);
    let s = match str_from_utf8(slice) {
        None => {
            return Err(RowError::FieldUtf8 { column: i });
        },
        Some(s) => s,
    };
    let mut t = slice.len();
    assert(slice@.subrange(0, t as int) =~= slice@);
    while t > 0 && slice[t - 1] == 32u8
        invariant
            t <= slice@.len(),
            trim_spaces(slice@) == trim_spaces(slice@.subrange(0, t as int)),
            t < slice@.len() ==> slice@[t as int] == 32u8,
        decreases t,
    {
        assert(slice@.subrange(0, t as int).drop_last() =~= slice@.subrange(0, t - 1));
        t = t - 1;
    }
    assert(slice@.subrange(0, slice@.len() as int) =~= slice@);
    assert(trim_spaces(slice@.subrange(0, t as int)) == slice@.subrange(0, t as int));
    proof {
        is_char_boundary_start_end_of_seq(slice@);
        if t < slice@.len() {
            is_char_boundary_iff_not_is_continuation_byte(slice@, t as int);
        }
    }
    let (p, _) = s.split_at(t);
    let v = String::from_str(p);
    assert(encode_utf8(v@) == p.spec_bytes());
    Ok(v)
}

/// Cuts the line `bytes` into the fields that `metadata` describes.
pub fn parse_row_bytes(bytes: &[u8], metadata: &FlgMetadata, line_no: usize) -> (r: Result<
    DataRow,
    RowError,
>)
    ensures
        match r {
            Ok(row) => spec_row(
                bytes@,
                metadata@.columns,
                metadata@.row_length,
                line_no as nat,
            ) == Ok::<Seq<Seq<u8>>, RowError>(row_bytes(row)),
            Err(e) => spec_row(bytes@, metadata@.columns, metadata@.row_length, line_no as nat)
                == Err::<Seq<Seq<u8>>, RowError>(e),
        },
{
    if bytes.len() != metadata.row_length {
        return Err(
            RowError::Length { line_no, actual: bytes.len(), expected: metadata.row_length },
        );
    }
    let ghost cols = metadata@.columns;
    let mut values: Vec<String> = Vec::new();
    let n = metadata.columns.len();
    let mut i: usize = 0;
    assert(cols.take(0) =~= Seq::<ColumnView>::empty());
    assert(values@.map_values(|v: String| encode_utf8(v@)) =~= Seq::<Seq<u8>>::empty());
    while i < n
        invariant
            n == metadata.columns@.len(),
            bytes@.len() == metadata@.row_length,
            cols == metadata@.columns,
            cols.len() == n,
            i <= n,
            spec_fields(bytes@, cols.take(i as int)) == Ok::<Seq<Seq<u8>>, RowError>(
                values@.map_values(|v: String| encode_utf8(v@)),
            ),
        decreases n - i,
    {
        let ghost before = values@;
        assert(cols.take(i + 1).drop_last() =~= cols.take(i as int));
        assert(cols.take(i + 1).last() == metadata.columns@[i as int]@);
        match extract_field(bytes, &metadata.columns[i], i) {
            Ok(v) => {
                values.push(v);
                assert(values@.map_values(|v: String| encode_utf8(v@)) =~= before.map_values(
                    |v: String| encode_utf8(v@),
                ).push(encode_utf8(v@)));
            },
            Err(e) => {
                assert(spec_fields(bytes@, cols.take(i + 1)) == Err::<Seq<Seq<u8>>, RowError>(e));
                assert(cols.take(n as int) =~= cols);
                proof {
                    lemma_fields_error_propagates(bytes@, cols, (i + 1) as int);
                }
                assert(bytes@.len() == metadata@.row_length);
                assert(spec_row(bytes@, cols, metadata@.row_length, line_no as nat) == spec_fields(
                    bytes@,
                    cols,
                ));
                return Err(e);
            },
        }
        i = i + 1;
    }
    assert(cols.take(n as int) =~= cols);
    let row = DataRow { values };
    assert(row_bytes(row) =~= values@.map_values(|v: String| encode_utf8(v@)));
    Ok(row)
}

/// An error among the first `i` columns is the error of the whole row.
proof fn lemma_fields_error_propagates(bytes: Seq<u8>, cols: Seq<ColumnView>, i: int)
    requires
        0 <= i <= cols.len(),
        spec_fields(bytes, cols.take(i)) is Err,
    ensures
        spec_fields(bytes, cols) == spec_fields(bytes, cols.take(i)),
    decreases cols.len() - i,
{
    if i < cols.len() {
        assert(cols.take(i + 1).drop_last() =~= cols.take(i));
        lemma_fields_error_propagates(bytes, cols, i + 1);
    } else {
        assert(cols.take(i) =~= cols);
    }
}

// ---------------------------------------------------------------------------
// Lines
// ---------------------------------------------------------------------------
/// Index of the first byte `b` in `d`, if any.
pub open spec fn first_byte(d: Seq<u8>, b: u8) -> Option<int>
    decreases d.len(),
{
    if d.len() == 0 {
        None
    } else if d[0] == b {
        Some(0)
    } else {
        match first_byte(d.drop_first(), b) {
            Some(i) => Some(i + 1),
            None => None,
        }
    }
}

pub proof fn lemma_first_byte(d: Seq<u8>, b: u8)
    ensures
        match first_byte(d, b) {
            Some(i) => 0 <= i < d.len() && d[i] == b && forall|j: int| 0 <= j < i ==> d[j] != b,
            None => forall|j: int| 0 <= j < d.len() ==> d[j] != b,
        },
    decreases d.len(),
{
    if d.len() > 0 && d[0] != b {
        lemma_first_byte(d.drop_first(), b);
        assert forall|j: int| 0 < j < d.len() implies d[j] == d.drop_first()[j - 1] by {}
    }
}

/// `s` without one trailing `\r`.
pub open spec fn strip_cr(s: Seq<u8>) -> Seq<u8> {
    if s.len() > 0 && s.last() == 13u8 {
        s.drop_last()
    } else {
        s
    }
}

/// The non-empty lines of `d`: the pieces between `\n` bytes, each without
/// one trailing `\r`.
pub open spec fn dat_lines(d: Seq<u8>) -> Seq<Seq<u8>>
    decreases d.len(),
{
    if d.len() == 0 {
        seq![]
    } else {
        match first_byte(d, 10u8) {
            Some(k) => {
                proof {
                    lemma_first_byte(d, 10u8);
                }
                let line = strip_cr(d.subrange(0, k));
                let rest = dat_lines(d.subrange(k + 1, d.len() as int));
                if line.len() == 0 {
                    rest
                } else {
                    seq![line] + rest
                }
            },
            None => {
                let line = strip_cr(d);
                if line.len() == 0 {
                    seq![]
                } else {
                    seq![line]
                }
            },
        }
    }
}

/// The values of `line` when it is a row, `None` when it is not.
pub open spec fn row_values(line: Seq<u8>, cols: Seq<ColumnView>, row_length: nat) -> Option<
    Seq<Seq<u8>>,
> {
    match spec_row(line, cols, row_length, 0) {
        Ok(v) => Some(v),
        Err(_) => None,
    }
}

/// The rows among `lines`, in order; lines that are not rows are skipped.
pub open spec fn rows_of(lines: Seq<Seq<u8>>, cols: Seq<ColumnView>, row_length: nat) -> Seq<
    Seq<Seq<u8>>,
>
    decreases lines.len(),
{
    if lines.len() == 0 {
        seq![]
    } else {
        (match row_values(lines[0], cols, row_length) {
            Some(v) => seq![v],
            None => seq![],
        }) + rows_of(lines.drop_first(), cols, row_length)
    }
}

/// The rows of the decompressed data `data` of a table that `meta` describes.
pub open spec fn spec_dat_rows(data: Seq<u8>, meta: FlgView) -> Seq<Seq<Seq<u8>>> {
    rows_of(dat_lines(data), meta.columns, meta.row_length)
}

/// Position of the first `\n` in `d[lo..hi]`, absolute, or `hi`.
fn find_newline(d: &[u8], lo: usize, hi: usize) -> (r: usize)
    requires
        lo <= hi <= d@.len(),
    ensures
        lo <= r <= hi,
        r < hi ==> first_byte(d@.subrange(lo as int, hi as int), 10u8) == Some(r - lo),
        r == hi ==> first_byte(d@.subrange(lo as int, hi as int), 10u8) is None,
{
    let ghost s = d@.subrange(lo as int, hi as int);
    let mut i = lo;
    while i < hi
        invariant
            lo <= i <= hi <= d@.len(),
            s == d@.subrange(lo as int, hi as int),
            forall|j: int| lo <= j < i ==> d@[j] != 10u8,
        decreases hi - i,
    {
        if d[i] == 10u8 {
            proof {
                lemma_first_byte(s, 10u8);
                match first_byte(s, 10u8) {
                    Some(k) => {
                        if k < i - lo {
                            assert(s[k] == d@[lo + k]);
                        }
                        if k > i - lo {
                            assert(s[i - lo] == d@[i as int]);
                        }
                    },
                    None => {
                        assert(s[i - lo] == d@[i as int]);
                    },
                }
            }
            return i;
        }
        i = i + 1;
    }
    proof {
        lemma_first_byte(s, 10u8);
        match first_byte(s, 10u8) {
            Some(k) => {
                assert(s[k] == d@[lo + k]);
            },
            None => {},
        }
    }
    hi
}

/// Where the next line of `d[pos..]` lies: the bounds of its bytes without
/// the line end, and where the rest starts (`d.len() + 1` at the end).
fn next_line(d: &[u8], pos: usize) -> (r: (usize, usize, bool, usize))
    requires
        pos < d@.len(),
    ensures
        pos <= r.0 <= r.1 <= d@.len(),
        r.2 ==> r.1 < r.3 <= d@.len(),
        ({
            let sub = d@.subrange(pos as int, d@.len() as int);
            let line = d@.subrange(r.0 as int, r.1 as int);
            let rest = if r.2 {
                dat_lines(d@.subrange(r.3 as int, d@.len() as int))
            } else {
                Seq::<Seq<u8>>::empty()
            };
            &&& dat_lines(sub) == (if line.len() == 0 {
                rest
            } else {
                seq![line] + rest
            })
        }),
{
    let n = d.len();
    let ghost sub = d@.subrange(pos as int, n as int);
    let k = find_newline(d, pos, n);
    let mut e = k;
    if e > pos && d[e - 1] == 13u8 {
        e = e - 1;
    }
    proof {
        if k < n {
            assert(sub.subrange(0, k - pos) =~= d@.subrange(pos as int, k as int));
            assert(sub.subrange(k - pos + 1, sub.len() as int) =~= d@.subrange(k + 1, n as int));
            assert(strip_cr(d@.subrange(pos as int, k as int)) =~= d@.subrange(pos as int, e as int));
        } else {
            assert(sub =~= d@.subrange(pos as int, k as int));
            assert(strip_cr(sub) =~= d@.subrange(pos as int, e as int));
        }
    }
    if k < n {
        (pos, e, true, k + 1)
    } else {
        (pos, e, false, n)
    }
}

/// Reads the rows of decompressed data. Lines that are not rows of the
/// table are skipped.
pub fn parse_decoded_dat(data: &[u8], metadata: &FlgMetadata) -> (rows: Vec<DataRow>)
    ensures
        rows_bytes(rows@) == spec_dat_rows(data@, metadata@),
{
    let n = data.len();
    let ghost cols = metadata@.columns;
    let ghost rl = metadata@.row_length;
    let mut rows: Vec<DataRow> = Vec::new();
    let mut pos: usize = 0;
    let mut line_no: usize = 0;
    assert(data@.subrange(0, n as int) =~= data@);
    while pos < n
        invariant
            n == data@.len(),
            pos <= n,
            line_no <= pos,
            cols == metadata@.columns,
            rl == metadata@.row_length,
            rows_bytes(rows@) + rows_of(dat_lines(data@.subrange(pos as int, n as int)), cols, rl)
                == spec_dat_rows(data@, metadata@),
        decreases n - pos,
    {
        let (a, b, more, next) = next_line(data, pos);
        let ghost line = data@.subrange(a as int, b as int);
        let ghost rest = if more {
            dat_lines(data@.subrange(next as int, n as int))
        } else {
            Seq::<Seq<u8>>::empty()
        };
        let ghost before = rows@;
        if b > a {
            line_no = line_no + 1;
            let bytes = slice_subrange(data, a, b);
            assert(rows_of(seq![line] + rest, cols, rl) == (match row_values(line, cols, rl) {
                Some(v) => seq![v],
                None => seq![],
            }) + rows_of(rest, cols, rl)) by {
                assert((seq![line] + rest).drop_first() =~= rest);
            }
            match parse_row_bytes(bytes, metadata, line_no) {
                Ok(row) => {
                    rows.push(row);
                    assert(rows_bytes(rows@) =~= rows_bytes(before) + seq![row_bytes(row)]);
                },
                Err(_) => {},
            }
        }
        if !more {
            pos = n;
            assert(data@.subrange(n as int, n as int) =~= Seq::<u8>::empty());
        } else {
            pos = next;
        }
        assert(rows_bytes(rows@) + rows_of(dat_lines(data@.subrange(pos as int, n as int)), cols, rl)
            =~= spec_dat_rows(data@, metadata@));
    }
    assert(data@.subrange(n as int, n as int) =~= Seq::<u8>::empty());
    assert(rows_bytes(rows@) =~= spec_dat_rows(data@, metadata@));
    rows
}

/// Why a data file could not be read.
#[derive(Debug, Clone, Copy, PartialEq, Eq, Structural)]
pub enum DatError {
    /// The file is named as gzip but does not decompress.
    Decode,
    /// A batch size of 0 was asked for.
    ZeroBatch,
}

/// The bytes of a data file that parsing reads: gzip files decompressed.
pub open spec fn spec_dat_data(dat_path: Seq<char>, raw: Seq<u8>) -> Option<Seq<u8>> {
    if spec_is_gzip(dat_path) {
        gzip_decoded(raw)
    } else {
        Some(raw)
    }
}

/// Reads all rows of the data file at `dat_path` whose bytes are `raw`.
/// Lines that are not rows of the table are skipped.
pub fn parse_dat(dat_path: &str, raw: &[u8], metadata: &FlgMetadata) -> (r: Result<
    Vec<DataRow>,
    DatError,
>)
    ensures
        match r {
            Ok(rows) => spec_dat_data(dat_path@, raw@) matches Some(d) && rows_bytes(rows@)
                == spec_dat_rows(d, metadata@),
            Err(e) => spec_dat_data(dat_path@, raw@) is None && e == DatError::Decode,
        },
{
    let p = to_chars(dat_path);
    if is_gzip(&p) {
        let (d, ok) = gunzip(raw);
        if ok {
            Ok(parse_decoded_dat(d.as_slice(), metadata))
        } else {
            Err(DatError::Decode)
        }
    } else {
        Ok(parse_decoded_dat(raw, metadata))
    }
}

} // verus!

verus! {

// ---------------------------------------------------------------------------
// Batches
// ---------------------------------------------------------------------------
/// `s` cut, in order, into batches of `k` items; the last batch holds the
/// remaining 1 to `k` items. There are no batches when `s` is empty or `k` is 0.
pub open spec fn chunks<T>(s: Seq<T>, k: nat) -> Seq<Seq<T>>
    decreases s.len(),
{
    if s.len() == 0 || k == 0 {
        seq![]
    } else if s.len() <= k {
        seq![s]
    } else {
        seq![s.take(k as int)] + chunks(s.skip(k as int), k)
    }
}

/// Batches, in order, concatenate to the rows they were cut from; every
/// batch but the last holds exactly `k` rows and the last holds 1 to `k`;
/// there are `ceil(len / k)` of them.
pub proof fn law_chunks_partition<T>(s: Seq<T>, k: nat)
    requires
        k > 0,
    ensures
        chunks(s, k).flatten() == s,
        chunks(s, k).len() == (s.len() + k - 1) / k as int,
        forall|i: int| 0 <= i < chunks(s, k).len() - 1 ==> (#[trigger] chunks(s, k)[i]).len() == k,
        chunks(s, k).len() > 0 ==> 0 < chunks(s, k).last().len() <= k,
    decreases s.len(),
{
    if s.len() == 0 {
        assert((s.len() + k - 1) / k as int == 0) by (nonlinear_arith)
            requires
                s.len() == 0,
                k > 0,
        ;
    } else if s.len() <= k {
        seq![s].lemma_flatten_one_element();
        assert((s.len() + k - 1) / k as int == 1) by (nonlinear_arith)
            requires
                0 < s.len() <= k,
        ;
    } else {
        let rest = s.skip(k as int);
        law_chunks_partition(rest, k);
        let c = chunks(s, k);
        assert(c =~= seq![s.take(k as int)] + chunks(rest, k));
        assert(c.drop_first() =~= chunks(rest, k));
        assert(c.flatten() == c.first() + c.drop_first().flatten());
        assert(s.take(k as int) + rest =~= s);
        assert((s.len() + k - 1) / k as int == 1 + (rest.len() + k - 1) / k as int) by (nonlinear_arith)
            requires
                rest.len() == s.len() - k,
                k > 0,
        ;
        assert forall|i: int| 0 <= i < c.len() - 1 implies (#[trigger] c[i]).len() == k by {
            if i > 0 {
                assert(c[i] == chunks(rest, k)[i - 1]);
            }
        }
    }
}

/// Full batches followed by a shorter tail are how `chunks` cuts their concatenation.
pub proof fn lemma_chunks_of_full<T>(bs: Seq<Seq<T>>, tail: Seq<T>, k: nat)
    requires
        k > 0,
        forall|i: int| 0 <= i < bs.len() ==> (#[trigger] bs[i]).len() == k,
        tail.len() < k,
    ensures
        chunks(bs.flatten() + tail, k) == (if tail.len() == 0 {
            bs
        } else {
            bs.push(tail)
        }),
    decreases bs.len(),
{
    if bs.len() == 0 {
        assert(bs.flatten() + tail =~= tail);
        if tail.len() == 0 {
        } else {
            assert(bs.push(tail) =~= seq![tail]);
        }
    } else {
        let rest = bs.drop_first();
        assert forall|i: int| 0 <= i < rest.len() implies (#[trigger] rest[i]).len() == k by {
            assert(rest[i] == bs[i + 1]);
        }
        lemma_chunks_of_full(rest, tail, k);
        let r = rest.flatten() + tail;
        let s = bs.flatten() + tail;
        assert(bs.flatten() == bs[0] + rest.flatten());
        assert(s =~= bs[0] + r);
        if r.len() == 0 {
            if rest.len() > 0 {
                assert(rest.flatten() == rest[0] + rest.drop_first().flatten());
            }
            assert(rest.len() == 0);
            assert(rest.flatten() =~= Seq::<T>::empty());
            assert(s =~= bs[0]);
            assert(bs =~= seq![bs[0]]);
        } else {
            assert(s.take(k as int) =~= bs[0]);
            assert(s.skip(k as int) =~= r);
            if tail.len() == 0 {
                assert(bs =~= seq![bs[0]] + rest);
            } else {
                assert(bs.push(tail) =~= seq![bs[0]] + rest.push(tail));
            }
        }
    }
}

/// Groups rows into batches of a fixed size, handing each batch out as soon
/// as it is full.
pub struct RowBatcher {
    batch_size: usize,
    buffer: Vec<DataRow>,
}

impl RowBatcher {
    pub closed spec fn size(&self) -> nat {
        self.batch_size as nat
    }

    /// The rows of the batch being filled.
    pub closed spec fn pending(&self) -> Seq<DataRow> {
        self.buffer@
    }

    pub open spec fn wf(&self) -> bool {
        self.size() > 0 && self.pending().len() < self.size()
    }

    /// A batcher with no rows; `batch_size` must be positive.
    pub fn new(batch_size: usize) -> (b: RowBatcher)
        requires
            batch_size > 0,
        ensures
            b.wf(),
            b.size() == batch_size,
            b.pending() == Seq::<DataRow>::empty(),
    {
        RowBatcher { batch_size, buffer: Vec::new() }
    }

    /// Adds a row; hands out the batch when it is now full.
    pub fn push(&mut self, row: DataRow) -> (r: Option<Vec<DataRow>>)
        requires
            old(self).wf(),
        ensures
            final(self).wf(),
            final(self).size() == old(self).size(),
            old(self).pending().len() + 1 == old(self).size() ==> (r matches Some(b) && b@
                == old(self).pending().push(row) && final(self).pending() == Seq::<DataRow>::empty()),
            old(self).pending().len() + 1 < old(self).size() ==> r is None && final(self).pending()
                == old(self).pending().push(row),
    {
        self.buffer.push(row);
        if self.buffer.len() >= self.batch_size {
            let mut out: Vec<DataRow> = Vec::new();
            std::mem::swap(&mut out, &mut self.buffer);
            Some(out)
        } else {
            None
        }
    }

    /// The last, partly filled batch, if it holds any row.
    pub fn finish(self) -> (r: Option<Vec<DataRow>>)
        requires
            self.wf(),
        ensures
            self.pending().len() == 0 ==> r is None,
            self.pending().len() > 0 ==> (r matches Some(b) && b@ == self.pending()),
    {
        if self.buffer.len() > 0 {
            Some(self.buffer)
        } else {
            None
        }
    }
}

/// Full batches followed by any rest are cut by `chunks` into those batches
/// followed by the cuts of the rest.
pub proof fn lemma_chunks_after_full<T>(bs: Seq<Seq<T>>, rest: Seq<T>, k: nat)
    requires
        k > 0,
        forall|i: int| 0 <= i < bs.len() ==> (#[trigger] bs[i]).len() == k,
    ensures
        chunks(bs.flatten() + rest, k) == bs + chunks(rest, k),
    decreases bs.len(),
{
    if bs.len() == 0 {
        assert(bs.flatten() + rest =~= rest);
        assert(bs + chunks(rest, k) =~= chunks(rest, k));
    } else {
        let tl = bs.drop_first();
        assert forall|i: int| 0 <= i < tl.len() implies (#[trigger] tl[i]).len() == k by {
            assert(tl[i] == bs[i + 1]);
        }
        lemma_chunks_after_full(tl, rest, k);
        let r = tl.flatten() + rest;
        let s = bs.flatten() + rest;
        assert(bs.flatten() == bs[0] + tl.flatten());
        assert(s =~= bs[0] + r);
        if r.len() == 0 {
            if tl.len() > 0 {
                assert(tl.flatten() == tl[0] + tl.drop_first().flatten());
            }
            assert(tl.len() == 0);
            assert(rest.len() == 0);
            assert(s =~= bs[0]);
            assert(bs =~= seq![bs[0]]);
            assert(chunks(rest, k) =~= Seq::<Seq<T>>::empty());
            assert(bs + chunks(rest, k) =~= bs);
        } else {
            assert(s.take(k as int) =~= bs[0]);
            assert(s.skip(k as int) =~= r);
            assert(bs + chunks(rest, k) =~= seq![bs[0]] + (tl + chunks(rest, k)));
        }
    }
}

/// Why streaming a data file stopped.
#[derive(Debug)]
pub enum StreamError<E> {
    /// The data file could not be read, or the batch size was 0.
    Dat(DatError),
    /// The consumer answered batch number `batch` (counted from 0) with `error`.
    Consumer { batch: usize, error: E },
}

/// `f`, handed a batch whose rows hold the values `rows`, answered `Ok`.
pub open spec fn accepted<F: FnMut(Vec<DataRow>) -> Result<(), E>, E>(
    f: F,
    rows: Seq<Seq<Seq<u8>>>,
) -> bool {
    exists|b: Vec<DataRow>| rows_bytes(b@) == rows && #[trigger] call_ensures(f, (b,), Ok::<(), E>(()))
}

/// `f`, handed a batch whose rows hold the values `rows`, answered `Err(e)`.
pub open spec fn refused<F: FnMut(Vec<DataRow>) -> Result<(), E>, E>(
    f: F,
    rows: Seq<Seq<Seq<u8>>>,
    e: E,
) -> bool {
    exists|b: Vec<DataRow>| rows_bytes(b@) == rows && #[trigger] call_ensures(f, (b,), Err::<(), E>(e))
}

/// How handing the batches `bs`, in order, to `f` ends with `r`: every batch
/// answered `Ok` and `r` counts them; or the batches before `batch` answered
/// `Ok`, batch `batch` answered the error, and no later batch was handed out.
pub open spec fn stream_outcome<F: FnMut(Vec<DataRow>) -> Result<(), E>, E>(
    f: F,
    bs: Seq<Seq<Seq<Seq<u8>>>>,
    r: Result<usize, StreamError<E>>,
) -> bool {
    match r {
        Ok(n) => n == bs.len() && forall|i: int| 0 <= i < bs.len() ==> accepted(f, #[trigger] bs[i]),
        Err(StreamError::Consumer { batch, error }) => {
            &&& batch < bs.len()
            &&& forall|i: int| 0 <= i < batch ==> accepted(f, #[trigger] bs[i])
            &&& refused(f, bs[batch as int], error)
        },
        Err(StreamError::Dat(_)) => false,
    }
}

/// `cs` without its last batch where that batch holds fewer than `k` items.
pub open spec fn full_batches<T>(cs: Seq<Seq<T>>, k: nat) -> Seq<Seq<T>> {
    if cs.len() > 0 && cs.last().len() < k {
        cs.drop_last()
    } else {
        cs
    }
}

proof fn lemma_full_batches_prefix<T>(cs: Seq<Seq<T>>, k: nat, m: int)
    requires
        0 < m <= cs.len(),
        cs[m - 1].len() == k,
    ensures
        full_batches(cs, k).len() >= m,
        forall|i: int| 0 <= i < full_batches(cs, k).len() ==> #[trigger] full_batches(cs, k)[i] == cs[i],
{
}

/// Hands the rows of decompressed data to `on_batch` in batches of
/// `batch_size` rows, in order, as soon as each batch is full; the last,
/// shorter batch only where `flush_last` is set. Stops at the first batch
/// that `on_batch` refuses. Only the batch being filled is held.
fn stream_rows<F, E>(
    data: &[u8],
    metadata: &FlgMetadata,
    batch_size: usize,
    on_batch: F,
    flush_last: bool,
) -> (r: Result<usize, StreamError<E>>) where F: FnMut(Vec<DataRow>) -> Result<(), E>
    requires
        batch_size > 0,
        forall|b: Vec<DataRow>| call_requires(on_batch, (b,)),
    ensures
        stream_outcome(
            on_batch,
            if flush_last {
                chunks(spec_dat_rows(data@, metadata@), batch_size as nat)
            } else {
                full_batches(chunks(spec_dat_rows(data@, metadata@), batch_size as nat), batch_size as nat)
            },
            r,
        ),
{
    let mut f = on_batch;
    let n = data.len();
    let ghost cols = metadata@.columns;
    let ghost rl = metadata@.row_length;
    let ghost k = batch_size as nat;
    let ghost all = spec_dat_rows(data@, metadata@);
    let mut handed: usize = 0;
    let ghost mut handed_rows: Seq<Seq<Seq<Seq<u8>>>> = Seq::empty();
    let mut batcher = RowBatcher::new(batch_size);
    let ghost mut done: Seq<Seq<Seq<u8>>> = Seq::empty();
    let mut pos: usize = 0;
    let mut line_no: usize = 0;
    assert(data@.subrange(0, n as int) =~= data@);
    assert(handed_rows.flatten() + rows_bytes(batcher.pending()) =~= done);
    while pos < n
        invariant
            n == data@.len(),
            pos <= n,
            line_no <= pos,
            handed + (if batcher.pending().len() > 0 {
                1int
            } else {
                0int
            }) <= line_no,
            f == on_batch,
            forall|b: Vec<DataRow>| call_requires(on_batch, (b,)),
            cols == metadata@.columns,
            rl == metadata@.row_length,
            k == batch_size,
            all == spec_dat_rows(data@, metadata@),
            batcher.wf(),
            batcher.size() == k,
            handed == handed_rows.len(),
            forall|i: int| 0 <= i < handed_rows.len() ==> (#[trigger] handed_rows[i]).len() == k,
            forall|i: int| 0 <= i < handed_rows.len() ==> accepted(on_batch, #[trigger] handed_rows[i]),
            handed_rows.flatten() + rows_bytes(batcher.pending()) == done,
            done + rows_of(dat_lines(data@.subrange(pos as int, n as int)), cols, rl) == all,
        decreases n - pos,
    {
        let (a, b, more, next) = next_line(data, pos);
        let ghost line = data@.subrange(a as int, b as int);
        let ghost rest = if more {
            dat_lines(data@.subrange(next as int, n as int))
        } else {
            Seq::<Seq<u8>>::empty()
        };
        if b > a {
            line_no = line_no + 1;
            let bytes = slice_subrange(data, a, b);
            assert(rows_of(seq![line] + rest, cols, rl) == (match row_values(line, cols, rl) {
                Some(v) => seq![v],
                None => seq![],
            }) + rows_of(rest, cols, rl)) by {
                assert((seq![line] + rest).drop_first() =~= rest);
            }
            match parse_row_bytes(bytes, metadata, line_no) {
                Ok(row) => {
                    let ghost old_pending = batcher.pending();
                    let ghost rb = row_bytes(row);
                    proof {
                        done = done.push(rb);
                    }
                    match batcher.push(row) {
                        Some(full) => {
                            let ghost fb = rows_bytes(full@);
                            let ghost later = rows_of(rest, cols, rl);
                            let ghost now = handed_rows.push(fb);
                            proof {
                                assert(fb =~= rows_bytes(old_pending).push(rb));
                                assert(rows_bytes(batcher.pending()) =~= Seq::<Seq<Seq<u8>>>::empty());
                                handed_rows.lemma_flatten_push(fb);
                                assert(now.flatten() == done);
                                assert forall|i: int| 0 <= i < now.len() implies (
                                #[trigger] now[i]).len() == k by {
                                    if i < handed_rows.len() {
                                        assert(now[i] == handed_rows[i]);
                                    }
                                }
                            }
                            let answer = f(full);
                            match answer {
                                Ok(unit) => {
                                    proof {
                                        assert(call_ensures(on_batch, (full,), answer));
                                        assert(answer == Ok::<(), E>(unit));
                                        assert(unit == ());
                                        assert(accepted(on_batch, fb));
                                        assert forall|i: int| 0 <= i < now.len() implies accepted(
                                            on_batch,
                                            #[trigger] now[i],
                                        ) by {
                                            if i < handed_rows.len() {
                                                assert(now[i] == handed_rows[i]);
                                            }
                                        }
                                        handed_rows = now;
                                    }
                                    handed = handed + 1;
                                },
                                Err(e) => {
                                    proof {
                                        assert(done + later == all);
                                        lemma_chunks_after_full(now, later, k);
                                        assert(chunks(all, k) == now + chunks(later, k));
                                        assert(chunks(all, k)[handed as int] == fb);
                                        assert(now[handed as int] == fb);
                                        lemma_full_batches_prefix(chunks(all, k), k, handed + 1);
                                        assert(refused(on_batch, fb, e));
                                        assert forall|i: int| 0 <= i < handed implies accepted(
                                            on_batch,
                                            #[trigger] chunks(all, k)[i],
                                        ) by {
                                            assert(chunks(all, k)[i] == handed_rows[i]);
                                        }
                                    }
                                    return Err(StreamError::Consumer { batch: handed, error: e });
                                },
                            }
                        },
                        None => {
                            assert(rows_bytes(batcher.pending()) =~= rows_bytes(old_pending).push(
                                rb,
                            ));
                        },
                    }
                    assert(handed_rows.flatten() + rows_bytes(batcher.pending()) =~= done);
                },
                Err(_) => {},
            }
        }
        if !more {
            pos = n;
            assert(data@.subrange(n as int, n as int) =~= Seq::<u8>::empty());
        } else {
            pos = next;
        }
        assert(done + rows_of(dat_lines(data@.subrange(pos as int, n as int)), cols, rl) =~= all);
    }
    assert(data@.subrange(n as int, n as int) =~= Seq::<u8>::empty());
    assert(done =~= all);
    let ghost tail = rows_bytes(batcher.pending());
    proof {
        lemma_chunks_after_full(handed_rows, tail, k);
        if tail.len() > 0 {
            assert(chunks(tail, k) == seq![tail]);
        } else {
            assert(chunks(tail, k) == Seq::<Seq<Seq<Seq<u8>>>>::empty());
        }
    }
    if !flush_last {
        proof {
            let cs = chunks(all, k);
            if tail.len() > 0 {
                assert(cs =~= handed_rows.push(tail));
                assert(full_batches(cs, k) =~= handed_rows);
            } else {
                assert(cs =~= handed_rows);
                if cs.len() > 0 {
                    assert(cs.last() == handed_rows[handed_rows.len() - 1]);
                }
            }
        }
        return Ok(handed);
    }
    match batcher.finish() {
        Some(last) => {
            let ghost lb = rows_bytes(last@);
            let answer = f(last);
            match answer {
                Ok(unit) => {
                    proof {
                        assert(call_ensures(on_batch, (last,), answer));
                        assert(answer == Ok::<(), E>(unit));
                        assert(unit == ());
                        assert(accepted(on_batch, lb));
                        assert forall|i: int| 0 <= i < chunks(all, k).len() implies accepted(
                            on_batch,
                            #[trigger] chunks(all, k)[i],
                        ) by {
                            if i < handed_rows.len() {
                                assert(chunks(all, k)[i] == handed_rows[i]);
                            }
                        }
                    }
                    Ok(handed + 1)
                },
                Err(e) => {
                    proof {
                        assert(refused(on_batch, chunks(all, k)[handed as int], e));
                        assert forall|i: int| 0 <= i < handed implies accepted(
                            on_batch,
                            #[trigger] chunks(all, k)[i],
                        ) by {
                            assert(chunks(all, k)[i] == handed_rows[i]);
                        }
                    }
                    Err(StreamError::Consumer { batch: handed, error: e })
                },
            }
        },
        None => {
            proof {
                assert(chunks(all, k) =~= handed_rows);
            }
            Ok(handed)
        },
    }
}

/// Hands the rows of decompressed data to `on_batch` in batches of
/// `batch_size` (positive) rows, in order, as soon as each batch is full; the
/// last batch may be shorter. Stops at the first batch that `on_batch`
/// refuses. Only the batch being filled is held.
pub fn stream_decoded_dat<F, E>(
    data: &[u8],
    metadata: &FlgMetadata,
    batch_size: usize,
    on_batch: F,
) -> (r: Result<usize, StreamError<E>>) where F: FnMut(Vec<DataRow>) -> Result<(), E>
    requires
        batch_size > 0,
        forall|b: Vec<DataRow>| call_requires(on_batch, (b,)),
    ensures
        stream_outcome(on_batch, chunks(spec_dat_rows(data@, metadata@), batch_size as nat), r),
{
    stream_rows(data, metadata, batch_size, on_batch, true)
}

/// `d` up to and including its last `\n`: its complete lines.
pub open spec fn complete_lines(d: Seq<u8>) -> Seq<u8>
    decreases d.len(),
{
    if d.len() == 0 || d.last() == 10u8 {
        d
    } else {
        complete_lines(d.drop_last())
    }
}

fn complete_lines_end(d: &[u8]) -> (r: usize)
    ensures
        r <= d@.len(),
        d@.subrange(0, r as int) == complete_lines(d@),
{
    let mut e = d.len();
    assert(d@.subrange(0, e as int) =~= d@);
    while e > 0 && d[e - 1] != 10u8
        invariant
            e <= d@.len(),
            complete_lines(d@) == complete_lines(d@.subrange(0, e as int)),
        decreases e,
    {
        assert(d@.subrange(0, e as int).drop_last() =~= d@.subrange(0, e - 1));
        e = e - 1;
    }
    e
}

/// How handing the batches `bs` of what a failed read delivered ends with
/// `r`: every batch answered `Ok` and the read's failure is reported; or the
/// batches before `batch` answered `Ok`, batch `batch` answered the error,
/// and no later batch was handed out.
pub open spec fn partial_outcome<F: FnMut(Vec<DataRow>) -> Result<(), E>, E>(
    f: F,
    bs: Seq<Seq<Seq<Seq<u8>>>>,
    r: Result<usize, StreamError<E>>,
) -> bool {
    match r {
        Err(StreamError::Dat(e)) => e == DatError::Decode && forall|i: int|
            0 <= i < bs.len() ==> accepted(f, #[trigger] bs[i]),
        Err(StreamError::Consumer { batch, error }) => {
            &&& batch < bs.len()
            &&& forall|i: int| 0 <= i < batch ==> accepted(f, #[trigger] bs[i])
            &&& refused(f, bs[batch as int], error)
        },
        Ok(_) => false,
    }
}

/// Hands out what a gzip file that failed partway delivered before the
/// failure: the rows of its complete lines (those that end in `\n`), in full
/// batches of `batch_size` rows only, in order; then reports the failure as
/// [`DatError::Decode`]. Stops earlier at the first batch that `on_batch`
/// refuses.
pub fn stream_partial_dat<F, E>(
    partial: &[u8],
    metadata: &FlgMetadata,
    batch_size: usize,
    on_batch: F,
) -> (r: Result<usize, StreamError<E>>) where F: FnMut(Vec<DataRow>) -> Result<(), E>
    requires
        batch_size > 0,
        forall|b: Vec<DataRow>| call_requires(on_batch, (b,)),
    ensures
        partial_outcome(
            on_batch,
            full_batches(
                chunks(spec_dat_rows(complete_lines(partial@), metadata@), batch_size as nat),
                batch_size as nat,
            ),
            r,
        ),
{
    let end = complete_lines_end(partial);
    let lines = slice_subrange(partial, 0, end);
    match stream_rows(lines, metadata, batch_size, on_batch, false) {
        Ok(_) => Err(StreamError::Dat(DatError::Decode)),
        Err(e) => Err(e),
    }
}

/// Reads the data file at `dat_path`, whose bytes are `raw`, and hands its
/// rows, as [`parse_dat`] reads them, to `on_batch` in batches of
/// `batch_size` rows, in order; stops at the first batch that `on_batch`
/// refuses. Gives the number of batches handed out. Where a gzip file fails
/// to decompress partway, the full batches of the complete lines delivered
/// before the failure are handed out first, then the failure is reported.
pub fn parse_dat_streaming<F, E>(
    dat_path: &str,
    raw: &[u8],
    metadata: &FlgMetadata,
    batch_size: usize,
    on_batch: F,
) -> (r: Result<usize, StreamError<E>>) where F: FnMut(Vec<DataRow>) -> Result<(), E>
    requires
        forall|b: Vec<DataRow>| call_requires(on_batch, (b,)),
    ensures
        batch_size == 0 ==> (r matches Err(StreamError::Dat(e)) && e == DatError::ZeroBatch),
        batch_size > 0 ==> match spec_dat_data(dat_path@, raw@) {
            Some(d) => stream_outcome(on_batch, chunks(spec_dat_rows(d, metadata@), batch_size as nat), r),
            None => exists|p: Seq<u8>|
                partial_outcome(
                    on_batch,
                    full_batches(
                        chunks(spec_dat_rows(#[trigger] complete_lines(p), metadata@), batch_size as nat),
                        batch_size as nat,
                    ),
                    r,
                ),
        },
{
    if batch_size == 0 {
        return Err(StreamError::Dat(DatError::ZeroBatch));
    }
    let p = to_chars(dat_path);
    if is_gzip(&p) {
        let (d, ok) = gunzip(raw);
        if ok {
            stream_decoded_dat(d.as_slice(), metadata, batch_size, on_batch)
        } else {
            let r = stream_partial_dat(d.as_slice(), metadata, batch_size, on_batch);
            assert(complete_lines(d@) == complete_lines(d@));
            r
        }
    } else {
        stream_decoded_dat(raw, metadata, batch_size, on_batch)
    }
}

} // verus!

verus! {

/// Reading a data file in batches gives, batch after batch, the rows that
/// reading it whole gives, in the same order: the batches that
/// [`parse_dat_streaming`] hands out concatenate to the rows of [`parse_dat`].
pub proof fn law_batches_concatenate_to_rows(
    rows: Seq<DataRow>,
    data: Seq<u8>,
    meta: FlgView,
    k: nat,
)
    requires
        k > 0,
        rows_bytes(rows) == spec_dat_rows(data, meta),
    ensures
        chunks(spec_dat_rows(data, meta), k).flatten() == rows_bytes(rows),
{
    law_chunks_partition(spec_dat_rows(data, meta), k);
}

} // verus!
