//! Disk space checks before loading: the source disk must hold twice the
//! compressed data, the target disk at least 1 GiB. Sizes are shown
//! readable, as `{:.2}` shows them in binary units.
use vstd::prelude::*;
use vstd::arithmetic::power2::{lemma2_to64, lemma2_to64_rest, lemma_pow2_adds, pow2};
use vstd::string::*;
use crate::models::PreCheckResult;
use crate::text::{dec, is_ws, parse_uint, parse_uint_spec, push_uint, to_chars};
use crate::validator::file::make_result;
use crate::validator::positions::result_view;

verus! {

// ---------------------------------------------------------------------------
// Readable sizes
// ---------------------------------------------------------------------------
/// The smallest `sh` from `from` up to 11 with `b < 2^(53 + sh)`.
pub open spec fn sig_shift(b: nat, from: nat) -> nat
    decreases 11 - from,
{
    if from >= 11 || b < pow2(53 + from) {
        from
    } else {
        sig_shift(b, from + 1)
    }
}

/// `b as f64` for `b < 2^64`: `b` rounded to 53 significant bits, ties to even.
pub open spec fn spec_f64_of(b: nat) -> nat {
    if b < pow2(53) {
        b
    } else {
        let sh = sig_shift(b, 1);
        let p = pow2(sh);
        let q = b / p;
        let r = b % p;
        (if 2 * r > p || (2 * r == p && q % 2 == 1) {
            q + 1
        } else {
            q
        }) * p
    }
}

/// `v / 2^k` in hundredths, rounded to the nearest, ties to even: how
/// `{:.2}` shows the double `v / 2^k`, which is exact.
pub open spec fn spec_hundredths(v: nat, k: nat) -> nat {
    let n = v * 100;
    let p = pow2(k);
    let q = n / p;
    let r = n % p;
    if 2 * r > p || (2 * r == p && q % 2 == 1) {
        q + 1
    } else {
        q
    }
}

/// A number of hundredths with two decimals.
pub open spec fn two_decimals(h: nat) -> Seq<char> {
    dec(h / 100) + "."@ + dec((h % 100) / 10) + dec(h % 10)
}

/// A size in bytes, readable: `500 B`, `1.00 KB`, `1.50 MB`, `2.00 GB`.
pub open spec fn spec_format_bytes(b: nat) -> Seq<char> {
    if b >= pow2(30) {
        two_decimals(spec_hundredths(spec_f64_of(b), 30)) + " GB"@
    } else if b >= pow2(20) {
        two_decimals(spec_hundredths(b, 20)) + " MB"@
    } else if b >= pow2(10) {
        two_decimals(spec_hundredths(b, 10)) + " KB"@
    } else {
        dec(b) + " B"@
    }
}

fn f64_of_u64(b: u64) -> (r: u128)
    ensures
        r == spec_f64_of(b as nat),
        r <= 0x1_0000_0000_0000_0800u128,
{
    proof {
        lemma2_to64();
        lemma2_to64_rest();
    }
    let bb = b as u128;
    if bb < 0x20000000000000u128 {
        return bb;
    }
    let mut sh: u64 = 1;
    let mut p: u128 = 2;
    while sh < 11 && bb >= p * 0x20000000000000u128
        invariant
            bb == b,
            1 <= sh <= 11,
            p == pow2(sh as nat),
            p <= 2048,
            pow2(1) == 2,
            pow2(10) == 1024,
            pow2(53) == 0x20000000000000,
            sig_shift(b as nat, sh as nat) == sig_shift(b as nat, 1),
        decreases 11 - sh,
    {
        proof {
            lemma_pow2_adds(53, sh as nat);
            lemma_pow2_adds(sh as nat, 1);
            if sh < 10 {
                vstd::arithmetic::power2::lemma_pow2_strictly_increases(sh as nat, 10);
            }
        }
        sh = sh + 1;
        p = p * 2;
    }
    proof {
        lemma_pow2_adds(53, sh as nat);
    }
    assert(sig_shift(b as nat, sh as nat) == sh);
    let q = bb / p;
    let r = bb % p;
    let q2 = if 2 * r > p || (2 * r == p && q % 2 == 1) {
        q + 1
    } else {
        q
    };
    assert(q2 * p <= 0x1_0000_0000_0000_0800u128) by (nonlinear_arith)
        requires
            q == bb / p,
            p > 0,
            bb < 0x1_0000_0000_0000_0000u128,
            q2 <= q + 1,
            p <= 2048,
    ;
    q2 * p
}

fn hundredths(v: u128, k: u64, p: u128) -> (h: u128)
    requires
        v <= 0x1_0000_0000_0000_0800u128,
        p == pow2(k as nat),
        0 < p <= 0x4000_0000,
    ensures
        h == spec_hundredths(v as nat, k as nat),
        h <= v * 100 / (p as int) + 1,
{
    let n = v * 100;
    let q = n / p;
    let r = n % p;
    if 2 * r > p || (2 * r == p && q % 2 == 1) {
        q + 1
    } else {
        q
    }
}

fn push_two_decimals(s: &mut String, h: u128)
    requires
        h / 100 <= u64::MAX,
    ensures
        final(s)@ == old(s)@ + two_decimals(h as nat),
{
    push_uint(s, (h / 100) as u64);
    s.append(".");
    push_uint(s, ((h % 100) / 10) as u64);
    push_uint(s, (h % 10) as u64);
}

/// Renders a size in bytes in the largest binary unit it reaches, with two
/// decimals; below a KiB in whole bytes.
pub fn format_bytes(bytes: u64) -> (r: String)
    ensures
        r@ == spec_format_bytes(bytes as nat),
{
    proof {
        lemma2_to64();
    }
    let mut s = String::new();
    if bytes >= 0x4000_0000 {
        let v = f64_of_u64(bytes);
        let h = hundredths(v, 30, 0x4000_0000);
        assert(v * 100 / 0x4000_0000int + 1 <= 0xffff_ffff_ffff) by (nonlinear_arith)
            requires
                v <= 0x1_0000_0000_0000_0800u128,
        ;
        push_two_decimals(&mut s, h);
        s.append(" GB");
    } else if bytes >= 0x10_0000 {
        let h = hundredths(bytes as u128, 20, 0x10_0000);
        assert(bytes * 100 / 0x10_0000int + 1 <= 0xffff_ffff_ffff) by (nonlinear_arith)
            requires
                bytes < 0x4000_0000,
        ;
        push_two_decimals(&mut s, h);
        s.append(" MB");
    } else if bytes >= 0x400 {
        let h = hundredths(bytes as u128, 10, 0x400);
        assert(bytes * 100 / 0x400int + 1 <= 0xffff_ffff_ffff) by (nonlinear_arith)
            requires
                bytes < 0x10_0000,
        ;
        push_two_decimals(&mut s, h);
        s.append(" KB");
    } else {
        push_uint(&mut s, bytes);
        s.append(" B");
    }
    s
}

// ---------------------------------------------------------------------------
// The checks
// ---------------------------------------------------------------------------
/// Bytes of free space the target disk needs: 1 GiB.
pub const MIN_TARGET_SPACE: u64 = 1024 * 1024 * 1024;

/// The source disk check, from the total size of the data files and the
/// free space of their disk, each read or failed to be read. The free space
/// is not looked at when the size could not be read.
pub open spec fn spec_check_disk_space(
    data_size: Result<u64, String>,
    available: Result<u64, String>,
) -> (Seq<char>, bool, Seq<char>, Seq<char>) {
    let name = "磁盘空间(源)"@;
    match data_size {
        Err(e) => (name, false, "计算数据文件大小失败: "@ + e@, "warning"@),
        Ok(total) => match available {
            Err(e) => (name, false, "获取磁盘可用空间失败: "@ + e@, "warning"@),
            Ok(avail) => {
                let required = total * 2;
                let passed = avail >= required;
                (
                    name,
                    passed,
                    (if passed {
                        "磁盘空间充足: 可用 "@
                    } else {
                        "磁盘空间不足: 可用 "@
                    }) + spec_format_bytes(avail as nat) + ", 数据文件总大小 "@ + spec_format_bytes(
                        total as nat,
                    ) + ", 需要至少 "@ + spec_format_bytes(required as nat),
                    "warning"@,
                )
            },
        },
    }
}

/// Checks that the source disk has at least twice the size of the data files
/// free, room to decompress them.
pub fn check_disk_space(data_size: Result<u64, String>, available: Result<u64, String>) -> (r:
    PreCheckResult)
    requires
        data_size matches Ok(t) ==> t * 2 <= u64::MAX,
    ensures
        result_view(r) == spec_check_disk_space(data_size, available),
{
    let name = String::from_str("磁盘空间(源)");
    let total = match data_size {
        Err(e) => {
            let mut m = String::from_str("计算数据文件大小失败: ");
            m.append(e.as_str());
            return make_result(name, false, m, "warning");
        },
        Ok(t) => t,
    };
    let avail = match available {
        Err(e) => {
            let mut m = String::from_str("获取磁盘可用空间失败: ");
            m.append(e.as_str());
            return make_result(name, false, m, "warning");
        },
        Ok(a) => a,
    };
    let required = total * 2;
    let passed = avail >= required;
    let mut m = if passed {
        String::from_str("磁盘空间充足: 可用 ")
    } else {
        String::from_str("磁盘空间不足: 可用 ")
    };
    let a = format_bytes(avail);
    m.append(a.as_str());
    m.append(", 数据文件总大小 ");
    let t = format_bytes(total);
    m.append(t.as_str());
    m.append(", 需要至少 ");
    let q = format_bytes(required);
    m.append(q.as_str());
    make_result(name, passed, m, "warning")
}

/// The target disk check, from the free space of the target disk, read or
/// failed to be read.
pub open spec fn spec_check_target_disk_space(available: Result<u64, String>) -> (
    Seq<char>,
    bool,
    Seq<char>,
    Seq<char>,
) {
    let name = "磁盘空间(目标)"@;
    match available {
        Err(e) => (name, false, "获取目标磁盘可用空间失败: "@ + e@, "warning"@),
        Ok(avail) => {
            let passed = avail >= MIN_TARGET_SPACE;
            (
                name,
                passed,
                (if passed {
                    "目标磁盘空间充足: 可用 "@
                } else {
                    "目标磁盘空间不足: 可用 "@
                }) + spec_format_bytes(avail as nat) + ", 最低要求 1GB"@,
                "warning"@,
            )
        },
    }
}

/// Checks that the target disk has at least 1 GiB free.
pub fn check_target_disk_space(available: Result<u64, String>) -> (r: PreCheckResult)
    ensures
        result_view(r) == spec_check_target_disk_space(available),
{
    let name = String::from_str("磁盘空间(目标)");
    match available {
        Err(e) => {
            let mut m = String::from_str("获取目标磁盘可用空间失败: ");
            m.append(e.as_str());
            make_result(name, false, m, "warning")
        },
        Ok(avail) => {
            let passed = avail >= MIN_TARGET_SPACE;
            let mut m = if passed {
                String::from_str("目标磁盘空间充足: 可用 ")
            } else {
                String::from_str("目标磁盘空间不足: 可用 ")
            };
            let a = format_bytes(avail);
            m.append(a.as_str());
            m.append(", 最低要求 1GB");
            make_result(name, passed, m, "warning")
        },
    }
}

/// Whether a file name is that of a compressed data file: it ends in `.dat.gz`.
pub open spec fn spec_is_data_file_name(name: Seq<char>) -> bool {
    name.len() >= 7 && name.subrange(name.len() - 7, name.len() as int) == ".dat.gz"@
}

pub fn is_data_file_name(name: &str) -> (r: bool)
    ensures
        r == spec_is_data_file_name(name@),
{
    let n = name.unicode_len();
    if n < 7 {
        return false;
    }
    let tail = name.substring_char(n - 7, n);
    crate::text::str_eq(tail, ".dat.gz")
}

// ---------------------------------------------------------------------------
// `df -k`
// ---------------------------------------------------------------------------
/// The white-space separated fields of `s` (`str::split_whitespace`).
pub open spec fn ws_fields(s: Seq<char>) -> Seq<Seq<char>>
    decreases s.len(),
{
    if s.len() == 0 {
        seq![]
    } else {
        let f = ws_fields(s.drop_last());
        let c = s.last();
        if is_ws(c) {
            f
        } else if s.len() >= 2 && !is_ws(s[s.len() - 2]) && f.len() > 0 {
            f.drop_last().push(f.last().push(c))
        } else {
            f.push(seq![c])
        }
    }
}

/// Why the output of `df -k` gave no free space.
#[derive(Debug)]
pub enum DfError {
    /// Fewer than two lines.
    TooFewLines,
    /// The second line has fewer than four fields; they are given.
    TooFewFields(Vec<String>),
    /// The fourth field is not a number of kilobytes; it is given.
    BadNumber(String),
}

/// The pieces of `s` between `\n` characters.
pub open spec fn nl_pieces(s: Seq<char>) -> Seq<Seq<char>> {
    crate::parser::flg::split_char(s, '\n')
}

/// Whether `s` has at least two lines (`str::lines`).
pub open spec fn has_second_line(s: Seq<char>) -> bool {
    nl_pieces(s).len() >= 3 || (nl_pieces(s).len() == 2 && nl_pieces(s)[1].len() > 0)
}

/// The free kilobytes that `df -k` prints: the fourth field of its second
/// line, as a number. A line's `\r` is white space to the fields, so it
/// needs no stripping.
pub open spec fn spec_df_available_kb(stdout: Seq<char>) -> Result<nat, ()> {
    if !has_second_line(stdout) {
        Err(())
    } else {
        let fields = ws_fields(nl_pieces(stdout)[1]);
        if fields.len() < 4 {
            Err(())
        } else {
            match parse_uint_spec(fields[3], u64::MAX as nat) {
                Some(v) => Ok(v),
                None => Err(()),
            }
        }
    }
}

/// Every piece list of `split_char` has at least one piece.
proof fn lemma_pieces_nonempty(s: Seq<char>)
    ensures
        nl_pieces(s).len() >= 1,
{
    crate::text::lemma_first_index(s, '\n');
}

fn fields_of(text: &str, cs: &Vec<char>, lo: usize, hi: usize) -> (r: Vec<String>)
    requires
        cs@ == text@,
        lo <= hi <= cs@.len(),
    ensures
        r@.map_values(|f: String| f@) == ws_fields(cs@.subrange(lo as int, hi as int)),
{
    let mut out: Vec<String> = Vec::new();
    let mut i = lo;
    let mut j = lo;
    let mut in_field = false;
    assert(cs@.subrange(lo as int, lo as int) =~= Seq::<char>::empty());
    while i < hi
        invariant
            cs@ == text@,
            lo <= j <= i <= hi <= cs@.len(),
            in_field == (i > lo && !is_ws(cs@[i - 1])),
            in_field ==> j < i,
            ws_fields(cs@.subrange(lo as int, i as int)) == out@.map_values(|f: String| f@) + (
            if in_field {
                seq![cs@.subrange(j as int, i as int)]
            } else {
                Seq::<Seq<char>>::empty()
            }),
        decreases hi - i,
    {
        let ghost prev = cs@.subrange(lo as int, i as int);
        let ghost cur = cs@.subrange(lo as int, i + 1);
        let ghost f = ws_fields(prev);
        let ghost done = out@.map_values(|f: String| f@);
        assert(cur.drop_last() =~= prev);
        assert(cur.last() == cs@[i as int]);
        if i > lo {
            assert(cur[cur.len() - 2] == cs@[i - 1]);
        }
        let c = cs[i];
        if crate::text::char_is_ws(c) {
            if in_field {
                let field = crate::text::substring(text, j, i);
                out.push(field);
                assert(out@.map_values(|f: String| f@) =~= done.push(
                    cs@.subrange(j as int, i as int),
                ));
                assert(f =~= done.push(cs@.subrange(j as int, i as int)));
            } else {
                assert(f =~= done);
            }
            in_field = false;
            assert(out@.map_values(|f: String| f@) =~= ws_fields(cur));
        } else {
            if in_field {
                assert(f.len() > 0);
                assert(f.drop_last() =~= done);
                assert(f.last().push(c) =~= cs@.subrange(j as int, i + 1));
            } else {
                j = i;
                assert(seq![c] =~= cs@.subrange(j as int, i + 1));
                assert(f =~= done);
            }
            in_field = true;
        }
        i = i + 1;
        assert(ws_fields(cs@.subrange(lo as int, i as int)) =~= out@.map_values(|f: String| f@) + (
        if in_field {
            seq![cs@.subrange(j as int, i as int)]
        } else {
            Seq::<Seq<char>>::empty()
        }));
    }
    if in_field {
        let ghost done = out@.map_values(|f: String| f@);
        let field = crate::text::substring(text, j, hi);
        out.push(field);
        assert(out@.map_values(|f: String| f@) =~= done.push(cs@.subrange(j as int, hi as int)));
    } else {
        assert(out@.map_values(|f: String| f@) =~= ws_fields(cs@.subrange(lo as int, hi as int)));
    }
    out
}

/// Reads the free space, in kilobytes, out of the output of `df -k`.
pub fn df_available_kb(stdout: &str) -> (r: Result<u64, DfError>)
    ensures
        match r {
            Ok(v) => spec_df_available_kb(stdout@) == Ok::<nat, ()>(v as nat),
            Err(_) => spec_df_available_kb(stdout@) is Err,
        },
{
    let cs = to_chars(stdout);
    let n = cs.len();
    let ghost s = cs@;
    assert(cs@.subrange(0, n as int) =~= s);
    let a = crate::text::find_char(&cs, 0, n, '\n');
    if a == n {
        assert(nl_pieces(s) =~= seq![s]);
        return Err(DfError::TooFewLines);
    }
    let ghost rest = s.subrange(a + 1, n as int);
    assert(nl_pieces(s) == seq![s.subrange(0, a as int)] + nl_pieces(rest)) by {
        crate::text::lemma_first_index(s, '\n');
    }
    let b = crate::text::find_char(&cs, a + 1, n, '\n');
    if b == n {
        assert(nl_pieces(rest) =~= seq![rest]);
        if b == a + 1 {
            assert(rest.len() == 0);
            return Err(DfError::TooFewLines);
        }
        assert(nl_pieces(s)[1] == rest);
    } else {
        let ghost rest2 = rest.subrange(b - a, rest.len() as int);
        assert(nl_pieces(rest) == seq![rest.subrange(0, b - a - 1)] + nl_pieces(rest2)) by {
            crate::text::lemma_first_index(rest, '\n');
        }
        proof {
            lemma_pieces_nonempty(rest2);
        }
        assert(rest.subrange(0, b - a - 1) =~= s.subrange(a + 1, b as int));
        assert(nl_pieces(s)[1] == s.subrange(a + 1, b as int));
    }
    assert(has_second_line(s));
    let fields = fields_of(stdout, &cs, a + 1, b);
    assert(fields@.map_values(|f: String| f@) == ws_fields(nl_pieces(s)[1]));
    if fields.len() < 4 {
        return Err(DfError::TooFewFields(fields));
    }
    let fc = to_chars(fields[3].as_str());
    assert(fc@.subrange(0, fc@.len() as int) =~= fc@);
    assert(fields@[3]@ == ws_fields(nl_pieces(s)[1])[3]);
    match parse_uint(&fc, 0, fc.len(), u64::MAX) {
        Some(v) => Ok(v),
        None => Err(DfError::BadNumber(fields[3].clone())),
    }
}

} // verus!
