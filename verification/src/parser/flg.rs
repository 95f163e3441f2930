//! `.flg` parsing: the layout metadata of a fixed-width data file.
//!
//! A `.flg` file starts with a summary line, which is skipped, followed by
//! `KEY=VALUE` lines; every line after `COLUMNDECRIPTION=` describes one
//! column as `index$$name$$type$$(start,end)`.
use vstd::prelude::*;
use vstd::string::*;
use crate::models::{ColumnDefinition, ColumnType, ColumnView, FlgMetadata, FlgView};
use crate::path::{file_name, file_name_bounds};
use crate::text::{all_digits, first_index, first_index2, last_index, parse_uint, parse_uint_spec, to_chars, trim, trim_bounds, find_char, find_char2, rfind_char, upper_eq_lit, upper_is, substring, range_eq_lit, lemma_first_index};

verus! {

/// Why a column description or one of its parts could not be read.
#[derive(Debug, Clone, Copy, PartialEq, Eq, Structural)]
pub enum ColumnError {
    /// The line does not have exactly four `$$`-separated parts.
    PartCount,
    /// The ordinal is not an unsigned integer.
    BadIndex,
    /// The type has no `(`.
    NoLeftParen,
    /// The type has no `)`.
    NoRightParen,
    /// The last `)` does not follow the first `(`.
    ParenOrder,
    /// The VARCHAR length is not an unsigned integer.
    BadLength,
    /// The DECIMAL arguments have no `,`.
    NoScale,
    /// The DECIMAL precision is not an unsigned integer.
    BadPrecision,
    /// The DECIMAL scale is not an unsigned integer.
    BadScale,
    /// The INT width is not an unsigned integer.
    BadWidth,
    /// The type name is none of VARCHAR, DECIMAL, NUMERIC, INT, INTEGER.
    UnsupportedType,
    /// The position range has no separator between its two ends.
    NoEnd,
    /// The start position is not an unsigned integer.
    BadStart,
    /// The end position is not an unsigned integer.
    BadEnd,
    /// The start is 0 or the end lies before the start.
    InvalidRange,
}

// ---------------------------------------------------------------------------
// Column type
// ---------------------------------------------------------------------------
pub open spec fn usize_max() -> nat {
    usize::MAX as nat
}

/// The DECIMAL arguments `m,n`: `m` before the first comma, `n` up to the next one.
pub open spec fn spec_decimal_args(inner: Seq<char>) -> Result<ColumnType, ColumnError> {
    match first_index(inner, ',') {
        None => Err(ColumnError::NoScale),
        Some(c) => {
            let rest = inner.subrange(c + 1, inner.len() as int);
            let n_str = match first_index(rest, ',') {
                Some(k) => rest.subrange(0, k),
                None => rest,
            };
            match parse_uint_spec(trim(inner.subrange(0, c)), usize_max()) {
                None => Err(ColumnError::BadPrecision),
                Some(m) => match parse_uint_spec(trim(n_str), usize_max()) {
                    None => Err(ColumnError::BadScale),
                    Some(n) => Ok(ColumnType::Decimal(m as usize, n as usize)),
                },
            }
        },
    }
}

/// The type of a column description, such as `VARCHAR(50)`, `DECIMAL(12,2)`
/// or `INT(10)`; the name is matched without regard to ASCII case, and
/// NUMERIC and INTEGER are read as DECIMAL and INT.
pub open spec fn spec_column_type(s0: Seq<char>) -> Result<ColumnType, ColumnError> {
    let s = trim(s0);
    match first_index(s, '(') {
        None => Err(ColumnError::NoLeftParen),
        Some(l) => match last_index(s, ')') {
            None => Err(ColumnError::NoRightParen),
            Some(r) => if r <= l {
                Err(ColumnError::ParenOrder)
            } else {
                let kind = trim(s.subrange(0, l));
                let inner = s.subrange(l + 1, r);
                if upper_is(kind, "VARCHAR"@) {
                    match parse_uint_spec(trim(inner), usize_max()) {
                        Some(n) => Ok(ColumnType::Varchar(n as usize)),
                        None => Err(ColumnError::BadLength),
                    }
                } else if upper_is(kind, "DECIMAL"@) || upper_is(kind, "NUMERIC"@) {
                    spec_decimal_args(inner)
                } else if upper_is(kind, "INT"@) || upper_is(kind, "INTEGER"@) {
                    match parse_uint_spec(trim(inner), usize_max()) {
                        Some(n) => Ok(ColumnType::Int(n as usize)),
                        None => Err(ColumnError::BadWidth),
                    }
                } else {
                    Err(ColumnError::UnsupportedType)
                }
            },
        },
    }
}

fn parse_uint_usize(cs: &Vec<char>, lo: usize, hi: usize) -> (r: Option<usize>)
    requires
        lo <= hi <= cs@.len(),
    ensures
        match r {
            Some(v) => parse_uint_spec(cs@.subrange(lo as int, hi as int), usize_max()) == Some(
                v as nat,
            ),
            None => parse_uint_spec(cs@.subrange(lo as int, hi as int), usize_max()) is None,
        },
{
    match parse_uint(cs, lo, hi, usize::MAX as u64) {
        Some(v) => Some(v as usize),
        None => None,
    }
}

/// Parses the trimmed `cs[lo..hi]` as an unsigned integer.
fn parse_trimmed_usize(cs: &Vec<char>, lo: usize, hi: usize) -> (r: Option<usize>)
    requires
        lo <= hi <= cs@.len(),
    ensures
        match r {
            Some(v) => parse_uint_spec(trim(cs@.subrange(lo as int, hi as int)), usize_max())
                == Some(v as nat),
            None => parse_uint_spec(trim(cs@.subrange(lo as int, hi as int)), usize_max()) is None,
        },
{
    let (a, b) = trim_bounds(cs, lo, hi);
    parse_uint_usize(cs, a, b)
}

fn decimal_args_at(cs: &Vec<char>, lo: usize, hi: usize) -> (r: Result<ColumnType, ColumnError>)
    requires
        lo <= hi <= cs@.len(),
    ensures
        r == spec_decimal_args(cs@.subrange(lo as int, hi as int)),
{
    let ghost inner = cs@.subrange(lo as int, hi as int);
    let c = find_char(cs, lo, hi, ',');
    if c == hi {
        return Err(ColumnError::NoScale);
    }
    let ghost rest = inner.subrange(c - lo + 1, inner.len() as int);
    assert(rest =~= cs@.subrange(c + 1, hi as int));
    let k = find_char(cs, c + 1, hi, ',');
    assert(inner.subrange(0, c - lo) =~= cs@.subrange(lo as int, c as int));
    proof {
        if k < hi {
            assert(rest.subrange(0, k - (c + 1)) =~= cs@.subrange(c + 1, k as int));
        } else {
            assert(rest =~= cs@.subrange(c + 1, k as int));
        }
    }
    match parse_trimmed_usize(cs, lo, c) {
        None => Err(ColumnError::BadPrecision),
        Some(m) => match parse_trimmed_usize(cs, c + 1, k) {
            None => Err(ColumnError::BadScale),
            Some(n) => Ok(ColumnType::Decimal(m, n)),
        },
    }
}

/// Parses the type of the column description `cs[lo..hi]`.
fn column_type_at(cs: &Vec<char>, lo: usize, hi: usize) -> (r: Result<ColumnType, ColumnError>)
    requires
        lo <= hi <= cs@.len(),
    ensures
        r == spec_column_type(cs@.subrange(lo as int, hi as int)),
{
    let (a, b) = trim_bounds(cs, lo, hi);
    let ghost s = cs@.subrange(a as int, b as int);
    let l = find_char(cs, a, b, '(');
    if l == b {
        return Err(ColumnError::NoLeftParen);
    }
    let r = rfind_char(cs, a, b, ')');
    if r == b {
        return Err(ColumnError::NoRightParen);
    }
    if r <= l {
        return Err(ColumnError::ParenOrder);
    }
    assert(s.subrange(0, l - a) =~= cs@.subrange(a as int, l as int));
    assert(s.subrange(l - a + 1, r - a) =~= cs@.subrange(l + 1, r as int));
    let (ka, kb) = trim_bounds(cs, a, l);
    if upper_eq_lit(cs, ka, kb, "VARCHAR") {
        match parse_trimmed_usize(cs, l + 1, r) {
            Some(n) => Ok(ColumnType::Varchar(n)),
            None => Err(ColumnError::BadLength),
        }
    } else if upper_eq_lit(cs, ka, kb, "DECIMAL") || upper_eq_lit(cs, ka, kb, "NUMERIC") {
        decimal_args_at(cs, l + 1, r)
    } else if upper_eq_lit(cs, ka, kb, "INT") || upper_eq_lit(cs, ka, kb, "INTEGER") {
        match parse_trimmed_usize(cs, l + 1, r) {
            Some(n) => Ok(ColumnType::Int(n)),
            None => Err(ColumnError::BadWidth),
        }
    } else {
        Err(ColumnError::UnsupportedType)
    }
}

/// Parses a column type such as `VARCHAR(50)`, `DECIMAL(12,2)` or `INT(10)`.
pub fn parse_column_type(s: &str) -> (r: Result<ColumnType, ColumnError>)
    ensures
        r == spec_column_type(s@),
{
    let cs = to_chars(s);
    assert(cs@.subrange(0, cs@.len() as int) =~= s@);
    column_type_at(&cs, 0, cs.len())
}

// ---------------------------------------------------------------------------
// Position range
// ---------------------------------------------------------------------------
pub open spec fn is_open_paren(c: char) -> bool {
    c == '(' || c == '（'
}

pub open spec fn is_close_paren(c: char) -> bool {
    c == ')' || c == '）'
}

/// `s` without leading half- and full-width `(`.
pub open spec fn strip_open_parens(s: Seq<char>) -> Seq<char>
    decreases s.len(),
{
    if s.len() > 0 && is_open_paren(s[0]) {
        strip_open_parens(s.drop_first())
    } else {
        s
    }
}

/// `s` without trailing half- and full-width `)`.
pub open spec fn strip_close_parens(s: Seq<char>) -> Seq<char>
    decreases s.len(),
{
    if s.len() > 0 && is_close_paren(s.last()) {
        strip_close_parens(s.drop_last())
    } else {
        s
    }
}

/// A position range `(start,end)`; half- and full-width brackets and
/// commas are both accepted.
pub open spec fn spec_position_range(s: Seq<char>) -> Result<(usize, usize), ColumnError> {
    let inner = strip_close_parens(strip_open_parens(trim(s)));
    match first_index2(inner, ',', '，') {
        None => Err(ColumnError::NoEnd),
        Some(k) => {
            let rest = inner.subrange(k + 1, inner.len() as int);
            let end_str = match first_index2(rest, ',', '，') {
                Some(j) => rest.subrange(0, j),
                None => rest,
            };
            match parse_uint_spec(trim(inner.subrange(0, k)), usize_max()) {
                None => Err(ColumnError::BadStart),
                Some(st) => match parse_uint_spec(trim(end_str), usize_max()) {
                    None => Err(ColumnError::BadEnd),
                    Some(en) => Ok((st as usize, en as usize)),
                },
            }
        },
    }
}

proof fn lemma_trim_digits(a: Seq<char>)
    requires
        forall|i: int| 0 <= i < a.len() ==> '0' <= #[trigger] a[i] <= '9',
    ensures
        trim(a) == a,
{
    if a.len() > 0 {
        assert(!crate::text::is_ws(a[0]));
        assert(crate::text::trim_start(a) == a);
        assert(!crate::text::is_ws(a.last()));
    } else {
        assert(crate::text::trim_start(a) == a);
    }
}

proof fn lemma_no_separator(a: Seq<char>)
    requires
        forall|i: int| 0 <= i < a.len() ==> '0' <= #[trigger] a[i] <= '9',
    ensures
        first_index2(a, ',', '，') is None,
{
    crate::text::lemma_first_index2(a, ',', '，');
    if first_index2(a, ',', '，') is Some {
        let k = first_index2(a, ',', '，')->0;
        assert('0' <= a[k] <= '9');
    }
}

/// A position range of two unsigned numbers, written in half- or
/// full-width brackets and separated by a half- or full-width comma, reads
/// as those two numbers, whichever of the forms is used.
pub proof fn law_position_range_forms(a: Seq<char>, b: Seq<char>, open: char, sep: char, close: char)
    requires
        a.len() > 0,
        b.len() > 0,
        forall|i: int| 0 <= i < a.len() ==> '0' <= #[trigger] a[i] <= '9',
        forall|i: int| 0 <= i < b.len() ==> '0' <= #[trigger] b[i] <= '9',
        crate::text::digits_value(a) <= usize::MAX,
        crate::text::digits_value(b) <= usize::MAX,
        open == '(' || open == '（',
        sep == ',' || sep == '，',
        close == ')' || close == '）',
    ensures
        spec_position_range(seq![open] + a + seq![sep] + b + seq![close]) == Ok::<
            (usize, usize),
            ColumnError,
        >((crate::text::digits_value(a) as usize, crate::text::digits_value(b) as usize)),
{
    let s = seq![open] + a + seq![sep] + b + seq![close];
    assert(s[0] == open);
    assert(s.last() == close);
    assert(crate::text::trim_start(s) == s);
    assert(crate::text::trim_end(s) == s);
    let t = a + seq![sep] + b + seq![close];
    assert(s.drop_first() =~= t);
    assert(t[0] == a[0]);
    assert(strip_open_parens(t) == t);
    assert(strip_open_parens(s) == t);
    let inner = a + seq![sep] + b;
    assert(t.drop_last() =~= inner);
    assert(inner.last() == b.last());
    assert(strip_close_parens(inner) == inner);
    assert(strip_close_parens(t) == inner);
    crate::text::lemma_first_index2(inner, ',', '，');
    lemma_no_separator(a);
    crate::text::lemma_first_index2(a, ',', '，');
    assert(inner[a.len() as int] == sep);
    let k = first_index2(inner, ',', '，')->0;
    assert forall|j: int| 0 <= j < a.len() implies inner[j] != ',' && inner[j] != '，' by {
        assert(inner[j] == a[j]);
    }
    assert(k == a.len());
    assert(inner.subrange(0, k) =~= a);
    assert(inner.subrange(k + 1, inner.len() as int) =~= b);
    lemma_no_separator(b);
    lemma_trim_digits(a);
    lemma_trim_digits(b);
    assert(crate::text::all_digits(a));
    assert(crate::text::all_digits(b));
}

fn position_range_at(cs: &Vec<char>, lo: usize, hi: usize) -> (r: Result<
    (usize, usize),
    ColumnError,
>)
    requires
        lo <= hi <= cs@.len(),
    ensures
        r == spec_position_range(cs@.subrange(lo as int, hi as int)),
{
    let (a0, b0) = trim_bounds(cs, lo, hi);
    let mut a = a0;
    while a < b0 && (cs[a] == '(' || cs[a] == '（')
        invariant
            a0 <= a <= b0 <= cs@.len(),
            strip_open_parens(cs@.subrange(a0 as int, b0 as int)) == strip_open_parens(
                cs@.subrange(a as int, b0 as int),
            ),
        decreases b0 - a,
    {
        assert(cs@.subrange(a as int, b0 as int).drop_first() =~= cs@.subrange(
            a + 1,
            b0 as int,
        ));
        a = a + 1;
    }
    let mut b = b0;
    while b > a && (cs[b - 1] == ')' || cs[b - 1] == '）')
        invariant
            a <= b <= b0 <= cs@.len(),
            strip_close_parens(cs@.subrange(a as int, b0 as int)) == strip_close_parens(
                cs@.subrange(a as int, b as int),
            ),
        decreases b - a,
    {
        assert(cs@.subrange(a as int, b as int).drop_last() =~= cs@.subrange(
            a as int,
            b - 1,
        ));
        b = b - 1;
    }
    let ghost inner = cs@.subrange(a as int, b as int);
    assert(inner == strip_close_parens(strip_open_parens(trim(cs@.subrange(lo as int, hi as int)))));
    let k = find_char2(cs, a, b, ',', '，');
    if k == b {
        return Err(ColumnError::NoEnd);
    }
    let ghost rest = inner.subrange(k - a + 1, inner.len() as int);
    assert(rest =~= cs@.subrange(k + 1, b as int));
    assert(inner.subrange(0, k - a) =~= cs@.subrange(a as int, k as int));
    let j = find_char2(cs, k + 1, b, ',', '，');
    proof {
        if j < b {
            assert(rest.subrange(0, j - (k + 1)) =~= cs@.subrange(k + 1, j as int));
        } else {
            assert(rest =~= cs@.subrange(k + 1, j as int));
        }
    }
    match parse_trimmed_usize(cs, a, k) {
        None => Err(ColumnError::BadStart),
        Some(st) => match parse_trimmed_usize(cs, k + 1, j) {
            None => Err(ColumnError::BadEnd),
            Some(en) => Ok((st, en)),
        },
    }
}

/// Parses a position range such as `(1,20)` or `（21,70）`.
pub fn parse_position_range(s: &str) -> (r: Result<(usize, usize), ColumnError>)
    ensures
        r == spec_position_range(s@),
{
    let cs = to_chars(s);
    assert(cs@.subrange(0, cs@.len() as int) =~= s@);
    position_range_at(&cs, 0, cs.len())
}

} // verus!

verus! {

// ---------------------------------------------------------------------------
// Column description line
// ---------------------------------------------------------------------------
/// Index of the first `$$` in `s`, if any.
pub open spec fn first_dd(s: Seq<char>) -> Option<int>
    decreases s.len(),
{
    if s.len() < 2 {
        None
    } else if s[0] == '$' && s[1] == '$' {
        Some(0)
    } else {
        match first_dd(s.drop_first()) {
            Some(i) => Some(i + 1),
            None => None,
        }
    }
}

pub proof fn lemma_first_dd(s: Seq<char>)
    ensures
        match first_dd(s) {
            Some(i) => 0 <= i && i + 2 <= s.len() && s[i] == '$' && s[i + 1] == '$' && forall|
                j: int,
            | 0 <= j < i ==> !(#[trigger] s[j] == '$' && s[j + 1] == '$'),
            None => forall|j: int|
                0 <= j && j + 1 < s.len() ==> !(#[trigger] s[j] == '$' && s[j + 1] == '$'),
        },
    decreases s.len(),
{
    if s.len() >= 2 && !(s[0] == '$' && s[1] == '$') {
        lemma_first_dd(s.drop_first());
        assert forall|j: int| 0 < j < s.len() implies s[j] == s.drop_first()[j - 1] by {}
    }
}

/// The pieces of `s` between `$$` separators (`str::split("$$")`).
pub open spec fn dd_split(s: Seq<char>) -> Seq<Seq<char>>
    decreases s.len(),
{
    match first_dd(s) {
        None => seq![s],
        Some(i) => {
            proof {
                lemma_first_dd(s);
            }
            seq![s.subrange(0, i)] + dd_split(s.subrange(i + 2, s.len() as int))
        },
    }
}

/// Position of the first `$$` in `cs[lo..hi]`, absolute, or `hi`.
fn find_dd(cs: &Vec<char>, lo: usize, hi: usize) -> (r: usize)
    requires
        lo <= hi <= cs@.len(),
    ensures
        lo <= r <= hi,
        r < hi ==> r + 2 <= hi && first_dd(cs@.subrange(lo as int, hi as int)) == Some(r - lo),
        r == hi ==> first_dd(cs@.subrange(lo as int, hi as int)) is None,
{
    let ghost s = cs@.subrange(lo as int, hi as int);
    let mut i = lo;
    while hi - i > 1
        invariant
            lo <= i <= hi <= cs@.len(),
            s == cs@.subrange(lo as int, hi as int),
            forall|j: int| lo <= j < i ==> !(#[trigger] cs@[j] == '$' && cs@[j + 1] == '$'),
        decreases hi - i,
    {
        if cs[i] == '$' && cs[i + 1] == '$' {
            proof {
                lemma_first_dd(s);
                match first_dd(s) {
                    Some(k) => {
                        if k < i - lo {
                            assert(s[k] == cs@[lo + k] && s[k + 1] == cs@[lo + k + 1]);
                        }
                        if k > i - lo {
                            assert(s[i - lo] == cs@[i as int] && s[i - lo + 1] == cs@[i + 1]);
                        }
                    },
                    None => {
                        assert(s[i - lo] == cs@[i as int] && s[i - lo + 1] == cs@[i + 1]);
                    },
                }
            }
            return i;
        }
        i = i + 1;
    }
    proof {
        lemma_first_dd(s);
        match first_dd(s) {
            Some(k) => {
                assert(s[k] == cs@[lo + k] && s[k + 1] == cs@[lo + k + 1]);
            },
            None => {},
        }
    }
    hi
}

/// A column description `index$$name$$type$$(start,end)`.
pub open spec fn spec_column_line(s: Seq<char>) -> Result<ColumnView, ColumnError> {
    let parts = dd_split(s);
    if parts.len() != 4 {
        Err(ColumnError::PartCount)
    } else {
        match parse_uint_spec(trim(parts[0]), usize_max()) {
            None => Err(ColumnError::BadIndex),
            Some(idx) => match spec_column_type(trim(parts[2])) {
                Err(e) => Err(e),
                Ok(dt) => match spec_position_range(trim(parts[3])) {
                    Err(e) => Err(e),
                    Ok((st, en)) => if st == 0 || en < st {
                        Err(ColumnError::InvalidRange)
                    } else {
                        Ok(
                            ColumnView {
                                index: idx,
                                name: trim(parts[1]),
                                data_type: dt,
                                start_pos: st as nat,
                                end_pos: en as nat,
                            },
                        )
                    },
                },
            },
        }
    }
}

fn column_line_at(src: &str, cs: &Vec<char>, lo: usize, hi: usize) -> (r: Result<
    ColumnDefinition,
    ColumnError,
>)
    requires
        cs@ == src@,
        lo <= hi <= cs@.len(),
    ensures
        match r {
            Ok(c) => spec_column_line(cs@.subrange(lo as int, hi as int)) == Ok::<
                ColumnView,
                ColumnError,
            >(c@),
            Err(e) => spec_column_line(cs@.subrange(lo as int, hi as int)) == Err::<
                ColumnView,
                ColumnError,
            >(e),
        },
{
    let ghost s = cs@.subrange(lo as int, hi as int);
    let s1 = find_dd(cs, lo, hi);
    let ghost r1 = cs@.subrange(s1 + 2, hi as int);
    if s1 == hi {
        assert(dd_split(s).len() == 1);
        return Err(ColumnError::PartCount);
    }
    assert(s.subrange(s1 - lo + 2, s.len() as int) =~= r1);
    assert(s.subrange(0, s1 - lo) =~= cs@.subrange(lo as int, s1 as int));
    let s2 = find_dd(cs, s1 + 2, hi);
    let ghost r2 = cs@.subrange(s2 + 2, hi as int);
    if s2 == hi {
        assert(dd_split(r1).len() == 1);
        assert(dd_split(s).len() == 2);
        return Err(ColumnError::PartCount);
    }
    assert(r1.subrange(s2 - (s1 + 2) + 2, r1.len() as int) =~= r2);
    assert(r1.subrange(0, s2 - (s1 + 2)) =~= cs@.subrange(s1 + 2, s2 as int));
    let s3 = find_dd(cs, s2 + 2, hi);
    let ghost r3 = cs@.subrange(s3 + 2, hi as int);
    if s3 == hi {
        assert(dd_split(r2).len() == 1);
        assert(dd_split(r1).len() == 2);
        assert(dd_split(s).len() == 3);
        return Err(ColumnError::PartCount);
    }
    assert(r2.subrange(s3 - (s2 + 2) + 2, r2.len() as int) =~= r3);
    assert(r2.subrange(0, s3 - (s2 + 2)) =~= cs@.subrange(s2 + 2, s3 as int));
    let s4 = find_dd(cs, s3 + 2, hi);
    if s4 < hi {
        let ghost r4 = r3.subrange(s4 - (s3 + 2) + 2, r3.len() as int);
        assert(dd_split(r3).len() == 1 + dd_split(r4).len());
        assert(dd_split(r3).len() >= 2);
        assert(dd_split(r2).len() >= 3);
        assert(dd_split(r1).len() >= 4);
        assert(dd_split(s).len() >= 5);
        return Err(ColumnError::PartCount);
    }
    let ghost parts = dd_split(s);
    assert(dd_split(r3) == seq![r3]);
    assert(dd_split(r2) =~= seq![cs@.subrange(s2 + 2, s3 as int), r3]);
    assert(dd_split(r1) =~= seq![
        cs@.subrange(s1 + 2, s2 as int),
        cs@.subrange(s2 + 2, s3 as int),
        r3,
    ]);
    assert(parts =~= seq![
        cs@.subrange(lo as int, s1 as int),
        cs@.subrange(s1 + 2, s2 as int),
        cs@.subrange(s2 + 2, s3 as int),
        r3,
    ]);
    let index = match parse_trimmed_usize(cs, lo, s1) {
        None => {
            return Err(ColumnError::BadIndex);
        },
        Some(v) => v,
    };
    let (ta, tb) = trim_bounds(cs, s2 + 2, s3);
    let data_type = match column_type_at(cs, ta, tb) {
        Err(e) => {
            return Err(e);
        },
        Ok(t) => t,
    };
    let (pa, pb) = trim_bounds(cs, s3 + 2, hi);
    let (start_pos, end_pos) = match position_range_at(cs, pa, pb) {
        Err(e) => {
            return Err(e);
        },
        Ok(p) => p,
    };
    if start_pos == 0 || end_pos < start_pos {
        return Err(ColumnError::InvalidRange);
    }
    let (na, nb) = trim_bounds(cs, s1 + 2, s2);
    let name = substring(src, na, nb);
    Ok(ColumnDefinition { index, name, data_type, start_pos, end_pos })
}

/// Parses one column description `index$$name$$type$$(start,end)`.
pub fn parse_column_line(line: &str) -> (r: Result<ColumnDefinition, ColumnError>)
    ensures
        match r {
            Ok(c) => spec_column_line(line@) == Ok::<ColumnView, ColumnError>(c@),
            Err(e) => spec_column_line(line@) == Err::<ColumnView, ColumnError>(e),
        },
{
    let cs = to_chars(line);
    assert(cs@.subrange(0, cs@.len() as int) =~= line@);
    column_line_at(line, &cs, 0, cs.len())
}

} // verus!

verus! {

// ---------------------------------------------------------------------------
// Whole file
// ---------------------------------------------------------------------------
/// The numeric keys of a `.flg` file.
#[derive(Debug, Clone, Copy, PartialEq, Eq, Structural)]
pub enum FlgKey {
    FileSize,
    RowCount,
    RowLength,
    ColumnCount,
}

/// Why a `.flg` file could not be read.
#[derive(Debug, Clone)]
pub enum FlgError {
    /// The path has no file name, or the name does not start with a table name.
    TableName,
    /// The value of a numeric key is not an unsigned integer in range.
    BadNumber { key: FlgKey, value: String },
}

/// Mathematical view of [`FlgError`].
pub enum FlgErrorView {
    TableName,
    BadNumber(FlgKey, Seq<char>),
}

impl View for FlgError {
    type V = FlgErrorView;

    open spec fn view(&self) -> FlgErrorView {
        match self {
            FlgError::TableName => FlgErrorView::TableName,
            FlgError::BadNumber { key, value } => FlgErrorView::BadNumber(*key, value@),
        }
    }
}

/// The pieces of `s` between occurrences of `c` (`str::split`).
pub open spec fn split_char(s: Seq<char>, c: char) -> Seq<Seq<char>>
    decreases s.len(),
{
    match first_index(s, c) {
        None => seq![s],
        Some(i) => {
            proof {
                lemma_first_index(s, c);
            }
            seq![s.subrange(0, i)] + split_char(s.subrange(i + 1, s.len() as int), c)
        },
    }
}

/// The lines of a `.flg` file after its summary line.
pub open spec fn flg_lines(content: Seq<char>) -> Seq<Seq<char>> {
    split_char(content, '\n').drop_first()
}

/// `s` without trailing `\r` and `\n`.
pub open spec fn strip_line_end(s: Seq<char>) -> Seq<char>
    decreases s.len(),
{
    if s.len() > 0 && (s.last() == '\r' || s.last() == '\n') {
        strip_line_end(s.drop_last())
    } else {
        s
    }
}

/// What has been read of a `.flg` file so far.
pub struct FlgState {
    pub filename: Seq<char>,
    pub file_size: nat,
    pub row_count: nat,
    pub created_at: Seq<char>,
    pub sql: Seq<char>,
    pub row_length: nat,
    pub column_count: nat,
    pub columns: Seq<ColumnView>,
    pub in_columns: bool,
}

pub open spec fn flg_initial() -> FlgState {
    FlgState {
        filename: Seq::empty(),
        file_size: 0,
        row_count: 0,
        created_at: Seq::empty(),
        sql: Seq::empty(),
        row_length: 0,
        column_count: 0,
        columns: Seq::empty(),
        in_columns: false,
    }
}

/// The effect of one line. Empty lines and lines without `=` are skipped;
/// after `COLUMNDECRIPTION` every line is a column description, and those
/// that cannot be read are skipped; keys other than the known ones are
/// skipped; a later value of a key replaces an earlier one.
pub open spec fn flg_step(st: FlgState, raw: Seq<char>) -> Result<FlgState, FlgErrorView> {
    let line = strip_line_end(raw);
    if line.len() == 0 {
        Ok(st)
    } else if st.in_columns {
        match spec_column_line(line) {
            Ok(c) => Ok(FlgState { columns: st.columns.push(c), ..st }),
            Err(_) => Ok(st),
        }
    } else {
        match first_index(line, '=') {
            None => Ok(st),
            Some(e) => {
                let key = trim(line.subrange(0, e));
                let value = trim(line.subrange(e + 1, line.len() as int));
                if key == "FILENAME"@ {
                    Ok(FlgState { filename: value, ..st })
                } else if key == "FILESIZE"@ {
                    match parse_uint_spec(value, u64::MAX as nat) {
                        Some(v) => Ok(FlgState { file_size: v, ..st }),
                        None => Err(FlgErrorView::BadNumber(FlgKey::FileSize, value)),
                    }
                } else if key == "ROWCOUNT"@ {
                    match parse_uint_spec(value, usize_max()) {
                        Some(v) => Ok(FlgState { row_count: v, ..st }),
                        None => Err(FlgErrorView::BadNumber(FlgKey::RowCount, value)),
                    }
                } else if key == "CREATEDATETIME"@ {
                    Ok(FlgState { created_at: value, ..st })
                } else if key == "SQL"@ {
                    Ok(FlgState { sql: value, ..st })
                } else if key == "ROWLENGTH"@ {
                    match parse_uint_spec(value, usize_max()) {
                        Some(v) => Ok(FlgState { row_length: v, ..st }),
                        None => Err(FlgErrorView::BadNumber(FlgKey::RowLength, value)),
                    }
                } else if key == "COLUMNCOUNT"@ {
                    match parse_uint_spec(value, usize_max()) {
                        Some(v) => Ok(FlgState { column_count: v, ..st }),
                        None => Err(FlgErrorView::BadNumber(FlgKey::ColumnCount, value)),
                    }
                } else if key == "COLUMNDECRIPTION"@ {
                    Ok(FlgState { in_columns: true, ..st })
                } else {
                    Ok(st)
                }
            },
        }
    }
}

/// The effect of a sequence of lines; the first error ends the reading.
pub open spec fn flg_fold(lines: Seq<Seq<char>>, st: FlgState) -> Result<FlgState, FlgErrorView>
    decreases lines.len(),
{
    if lines.len() == 0 {
        Ok(st)
    } else {
        match flg_step(st, lines[0]) {
            Ok(s2) => flg_fold(lines.drop_first(), s2),
            Err(e) => Err(e),
        }
    }
}

/// The table name of a data file: its file name up to the first `.`, if not empty.
pub open spec fn spec_table_name(path: Seq<char>) -> Option<Seq<char>> {
    match file_name(path) {
        None => None,
        Some(n) => {
            let t = match first_index(n, '.') {
                Some(i) => n.subrange(0, i),
                None => n,
            };
            if t.len() > 0 {
                Some(t)
            } else {
                None
            }
        },
    }
}

/// The metadata that a `.flg` file at `path` with text `content` describes.
pub open spec fn spec_parse_flg(path: Seq<char>, content: Seq<char>) -> Result<
    FlgView,
    FlgErrorView,
> {
    match spec_table_name(path) {
        None => Err(FlgErrorView::TableName),
        Some(t) => match flg_fold(flg_lines(content), flg_initial()) {
            Err(e) => Err(e),
            Ok(st) => Ok(
                FlgView {
                    filename: st.filename,
                    file_size: st.file_size,
                    row_count: st.row_count,
                    created_at: st.created_at,
                    sql: st.sql,
                    row_length: st.row_length,
                    column_count: st.column_count,
                    columns: st.columns,
                    table_name: t,
                },
            ),
        },
    }
}

/// Extracts the table name from the path of a data or `.flg` file.
pub fn extract_table_name(path: &str) -> (r: Result<String, FlgError>)
    ensures
        match r {
            Ok(t) => spec_table_name(path@) == Some(t@),
            Err(e) => spec_table_name(path@) is None && e@ == FlgErrorView::TableName,
        },
{
    let cs = to_chars(path);
    assert(cs@.subrange(0, cs@.len() as int) =~= path@);
    match file_name_bounds(&cs, cs.len()) {
        None => Err(FlgError::TableName),
        Some((a, b)) => {
            let ghost n = cs@.subrange(a as int, b as int);
            let d = find_char(&cs, a, b, '.');
            proof {
                if d < b {
                    assert(n.subrange(0, d - a) =~= cs@.subrange(a as int, d as int));
                }
            }
            if d == a {
                Err(FlgError::TableName)
            } else {
                Ok(substring(path, a, d))
            }
        },
    }
}

/// The fields of a `.flg` file read so far.
struct FlgAcc {
    filename: String,
    file_size: u64,
    row_count: usize,
    created_at: String,
    sql: String,
    row_length: usize,
    column_count: usize,
    columns: Vec<ColumnDefinition>,
    in_columns: bool,
}

impl View for FlgAcc {
    type V = FlgState;

    closed spec fn view(&self) -> FlgState {
        FlgState {
            filename: self.filename@,
            file_size: self.file_size as nat,
            row_count: self.row_count as nat,
            created_at: self.created_at@,
            sql: self.sql@,
            row_length: self.row_length as nat,
            column_count: self.column_count as nat,
            columns: self.columns@.map_values(|c: ColumnDefinition| c@),
            in_columns: self.in_columns,
        }
    }
}

fn flg_step_exec(acc: &mut FlgAcc, src: &str, cs: &Vec<char>, lo: usize, hi: usize) -> (r: Result<
    (),
    FlgError,
>)
    requires
        cs@ == src@,
        lo <= hi <= cs@.len(),
    ensures
        match flg_step(old(acc)@, cs@.subrange(lo as int, hi as int)) {
            Ok(st) => r is Ok && final(acc)@ == st,
            Err(e) => r matches Err(x) && x@ == e,
        },
{
    let mut b = hi;
    while b > lo && (cs[b - 1] == '\r' || cs[b - 1] == '\n')
        invariant
            lo <= b <= hi <= cs@.len(),
            strip_line_end(cs@.subrange(lo as int, hi as int)) == strip_line_end(
                cs@.subrange(lo as int, b as int),
            ),
        decreases b - lo,
    {
        assert(cs@.subrange(lo as int, b as int).drop_last() =~= cs@.subrange(lo as int, b - 1));
        b = b - 1;
    }
    let ghost line = cs@.subrange(lo as int, b as int);
    assert(strip_line_end(line) == line);
    if b == lo {
        return Ok(());
    }
    if acc.in_columns {
        match column_line_at(src, cs, lo, b) {
            Ok(c) => {
                acc.columns.push(c);
                assert(acc@.columns =~= old(acc)@.columns.push(c@));
            },
            Err(_) => {},
        }
        return Ok(());
    }
    let e = find_char(cs, lo, b, '=');
    if e == b {
        return Ok(());
    }
    assert(line.subrange(0, e - lo) =~= cs@.subrange(lo as int, e as int));
    assert(line.subrange(e - lo + 1, line.len() as int) =~= cs@.subrange(e + 1, b as int));
    let (ka, kb) = trim_bounds(cs, lo, e);
    let (va, vb) = trim_bounds(cs, e + 1, b);
    if range_eq_lit(cs, ka, kb, "FILENAME") {
        acc.filename = substring(src, va, vb);
    } else if range_eq_lit(cs, ka, kb, "FILESIZE") {
        match parse_uint(cs, va, vb, u64::MAX) {
            Some(v) => {
                acc.file_size = v;
            },
            None => {
                return Err(FlgError::BadNumber { key: FlgKey::FileSize, value: substring(src, va, vb) });
            },
        }
    } else if range_eq_lit(cs, ka, kb, "ROWCOUNT") {
        match parse_uint_usize(cs, va, vb) {
            Some(v) => {
                acc.row_count = v;
            },
            None => {
                return Err(FlgError::BadNumber { key: FlgKey::RowCount, value: substring(src, va, vb) });
            },
        }
    } else if range_eq_lit(cs, ka, kb, "CREATEDATETIME") {
        acc.created_at = substring(src, va, vb);
    } else if range_eq_lit(cs, ka, kb, "SQL") {
        acc.sql = substring(src, va, vb);
    } else if range_eq_lit(cs, ka, kb, "ROWLENGTH") {
        match parse_uint_usize(cs, va, vb) {
            Some(v) => {
                acc.row_length = v;
            },
            None => {
                return Err(FlgError::BadNumber { key: FlgKey::RowLength, value: substring(src, va, vb) });
            },
        }
    } else if range_eq_lit(cs, ka, kb, "COLUMNCOUNT") {
        match parse_uint_usize(cs, va, vb) {
            Some(v) => {
                acc.column_count = v;
            },
            None => {
                return Err(FlgError::BadNumber { key: FlgKey::ColumnCount, value: substring(src, va, vb) });
            },
        }
    } else if range_eq_lit(cs, ka, kb, "COLUMNDECRIPTION") {
        acc.in_columns = true;
    }
    Ok(())
}

/// Parses the text `content` of the `.flg` file at `path`.
pub fn parse_flg(path: &str, content: &str) -> (r: Result<FlgMetadata, FlgError>)
    ensures
        match r {
            Ok(m) => spec_parse_flg(path@, content@) == Ok::<FlgView, FlgErrorView>(m@),
            Err(e) => spec_parse_flg(path@, content@) == Err::<FlgView, FlgErrorView>(e@),
        },
{
    let table_name = match extract_table_name(path) {
        Ok(t) => t,
        Err(e) => {
            return Err(e);
        },
    };
    let cs = to_chars(content);
    let n = cs.len();
    let mut acc = FlgAcc {
        filename: String::new(),
        file_size: 0,
        row_count: 0,
        created_at: String::new(),
        sql: String::new(),
        row_length: 0,
        column_count: 0,
        columns: Vec::new(),
        in_columns: false,
    };
    assert(acc@ == flg_initial()) by {
        assert(acc@.columns =~= Seq::<ColumnView>::empty());
    }
    let ghost target = flg_fold(flg_lines(content@), flg_initial());
    assert(cs@.subrange(0, n as int) =~= content@);
    let first = find_char(&cs, 0, n, '\n');
    if first < n {
        let ghost all = cs@.subrange(0, n as int);
        assert(all.subrange(first + 1, all.len() as int) =~= cs@.subrange(first + 1, n as int));
        assert(flg_lines(content@) =~= split_char(cs@.subrange(first + 1, n as int), '\n'));
        let mut pos = first + 1;
        let mut done = false;
        while !done
            invariant
                cs@ == content@,
                n == cs@.len(),
                pos <= n,
                spec_table_name(path@) == Some(table_name@),
                target == flg_fold(flg_lines(content@), flg_initial()),
                !done ==> flg_fold(split_char(cs@.subrange(pos as int, n as int), '\n'), acc@)
                    == target,
                done ==> target == Ok::<FlgState, FlgErrorView>(acc@),
            decreases (n - pos) as int + (if done { 0int } else { 1int }),
        {
            let ghost sub = cs@.subrange(pos as int, n as int);
            let e = find_char(&cs, pos, n, '\n');
            let ghost line = cs@.subrange(pos as int, e as int);
            let ghost old_acc = acc@;
            let ghost pieces = split_char(sub, '\n');
            proof {
                if e < n {
                    assert(sub.subrange(0, e - pos) =~= line);
                    assert(sub.subrange(e - pos + 1, sub.len() as int) =~= cs@.subrange(
                        e + 1,
                        n as int,
                    ));
                    assert(pieces[0] == line);
                    assert(pieces.drop_first() =~= split_char(cs@.subrange(e + 1, n as int), '\n'));
                } else {
                    assert(sub =~= line);
                    assert(pieces =~= seq![line]);
                    assert(pieces.drop_first() =~= Seq::<Seq<char>>::empty());
                }
            }
            assert(flg_fold(pieces, old_acc) == match flg_step(old_acc, line) {
                Ok(s2) => flg_fold(pieces.drop_first(), s2),
                Err(er) => Err(er),
            });
            match flg_step_exec(&mut acc, content, &cs, pos, e) {
                Ok(()) => {},
                Err(err) => {
                    assert(spec_parse_flg(path@, content@) == Err::<FlgView, FlgErrorView>(err@));
                    return Err(err);
                },
            }
            assert(flg_fold(Seq::<Seq<char>>::empty(), acc@) == Ok::<FlgState, FlgErrorView>(acc@));
            if e == n {
                done = true;
            } else {
                pos = e + 1;
            }
        }
    } else {
        assert(split_char(content@, '\n') =~= seq![content@]);
        assert(flg_lines(content@) =~= Seq::<Seq<char>>::empty());
    }
    let ghost cols = acc@.columns;
    Ok(
        FlgMetadata {
            filename: acc.filename,
            file_size: acc.file_size,
            row_count: acc.row_count,
            created_at: acc.created_at,
            sql: acc.sql,
            row_length: acc.row_length,
            column_count: acc.column_count,
            columns: acc.columns,
            table_name,
        },
    )
}

} // verus!
