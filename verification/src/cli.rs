//! Helpers of the command-line tools: `--key value` / `--key=value`
//! arguments, fixed-width fields of generated data rows, and thousands
//! separators.
use vstd::prelude::*;
use vstd::string::*;
use vstd::utf8::{encode_utf8, encode_utf8_valid_utf8, pop_first_scalar, valid_utf8, valid_utf8_concat};
use crate::models::ColumnView;
use crate::parser::dat::{spec_field, trim_spaces, RowError};
use crate::text::{dec, fmt_uint, parse_uint, parse_uint_spec, substring, str_eq, to_chars};

verus! {

// ---------------------------------------------------------------------------
// Arguments
// ---------------------------------------------------------------------------
/// Whether `s` starts with `p`.
pub open spec fn starts_with(s: Seq<char>, p: Seq<char>) -> bool {
    s.len() >= p.len() && s.take(p.len() as int) == p
}

/// The value of `key` among `args` from position `i` on: the argument after
/// the first `key` that has one, or what follows `key=` in an argument,
/// whichever comes first.
pub open spec fn arg_from(args: Seq<Seq<char>>, key: Seq<char>, i: int) -> Option<Seq<char>>
    decreases args.len() - i,
{
    if i < 0 || i >= args.len() {
        None
    } else if args[i] == key && i + 1 < args.len() {
        Some(args[i + 1])
    } else if starts_with(args[i], key + "="@) {
        Some(args[i].skip(key.len() + 1int))
    } else {
        arg_from(args, key, i + 1)
    }
}

pub open spec fn spec_parse_arg_str(args: Seq<Seq<char>>, key: Seq<char>, default: Seq<char>) -> Seq<
    char,
> {
    match arg_from(args, key, 0) {
        Some(v) => v,
        None => default,
    }
}

/// The value of the option `key`, or `default` when it is not given.
pub fn parse_arg_str(args: &Vec<String>, key: &str, default: &str) -> (r: String)
    ensures
        r@ == spec_parse_arg_str(args@.map_values(|a: String| a@), key@, default@),
{
    let ghost all = args@.map_values(|a: String| a@);
    proof {
        reveal_strlit("=");
    }
    let mut prefix = String::from_str(key);
    prefix.append("=");
    let plen = prefix.as_str().unicode_len();
    let n = args.len();
    let mut i: usize = 0;
    while i < n
        invariant
            all == args@.map_values(|a: String| a@),
            n == all.len(),
            i <= n,
            prefix@ == key@ + "="@,
            plen == prefix@.len(),
            plen == key@.len() + 1,
            arg_from(all, key@, 0) == arg_from(all, key@, i as int),
        decreases n - i,
    {
        assert(all[i as int] == args@[i as int]@);
        if str_eq(args[i].as_str(), key) && i + 1 < n {
            assert(all[i + 1] == args@[i + 1]@);
            return args[i + 1].clone();
        }
        let a = args[i].as_str();
        let alen = a.unicode_len();
        if alen >= plen {
            let head = a.substring_char(0, plen);
            if str_eq(head, prefix.as_str()) {
                assert(starts_with(all[i as int], key@ + "="@));
                assert(all[i as int].skip(key@.len() + 1int) =~= a@.subrange(plen as int, alen as int));
                return substring(a, plen, alen);
            }
        }
        i = i + 1;
    }
    String::from_str(default)
}

/// The value of the numeric option `key`: `default` when it is not given,
/// empty, or not a number.
pub open spec fn spec_parse_arg_usize(args: Seq<Seq<char>>, key: Seq<char>, default: usize) -> usize {
    let s = spec_parse_arg_str(args, key, ""@);
    if s.len() == 0 {
        default
    } else {
        match parse_uint_spec(s, usize::MAX as nat) {
            Some(v) => v as usize,
            None => default,
        }
    }
}

pub fn parse_arg_usize(args: &Vec<String>, key: &str, default: usize) -> (r: usize)
    ensures
        r == spec_parse_arg_usize(args@.map_values(|a: String| a@), key@, default),
{
    let s = parse_arg_str(args, key, "");
    proof {
        reveal_strlit("");
    }
    let cs = to_chars(s.as_str());
    if cs.len() == 0 {
        return default;
    }
    assert(cs@.subrange(0, cs@.len() as int) =~= cs@);
    match parse_uint(&cs, 0, cs.len(), usize::MAX as u64) {
        Some(v) => v as usize,
        None => default,
    }
}

// ---------------------------------------------------------------------------
// Fixed-width fields
// ---------------------------------------------------------------------------
/// The bytes of `value` in a field of `width` bytes: padded on the right
/// with spaces, or cut.
pub open spec fn spec_field_bytes(value: Seq<u8>, width: nat) -> Seq<u8> {
    if value.len() >= width {
        value.take(width as int)
    } else {
        value + Seq::new((width - value.len()) as nat, |i: int| 32u8)
    }
}

/// Appends `value` as a field of `width` bytes.
pub fn write_field(buf: &mut Vec<u8>, value: &str, width: usize)
    ensures
        final(buf)@ == old(buf)@ + spec_field_bytes(value.spec_bytes(), width as nat),
        final(buf)@.len() == old(buf)@.len() + width,
{
    let bytes = value.as_bytes();
    let ghost start = buf@;
    if bytes.len() >= width {
        let mut i: usize = 0;
        while i < width
            invariant
                i <= width <= bytes@.len(),
                buf@ == start + bytes@.take(i as int),
            decreases width - i,
        {
            buf.push(bytes[i]);
            i = i + 1;
            assert(buf@ =~= start + bytes@.take(i as int));
        }
    } else {
        let mut i: usize = 0;
        while i < bytes.len()
            invariant
                i <= bytes@.len() < width,
                buf@ == start + bytes@.take(i as int),
            decreases bytes@.len() - i,
        {
            buf.push(bytes[i]);
            i = i + 1;
            assert(buf@ =~= start + bytes@.take(i as int));
        }
        assert(bytes@.take(bytes@.len() as int) =~= bytes@);
        let mut k: usize = bytes.len();
        while k < width
            invariant
                bytes@.len() <= k <= width,
                buf@ == start + bytes@ + Seq::new((k - bytes@.len()) as nat, |i: int| 32u8),
            decreases width - k,
        {
            buf.push(32u8);
            k = k + 1;
            assert(buf@ =~= start + bytes@ + Seq::new((k - bytes@.len()) as nat, |i: int| 32u8));
        }
    }
}

/// `m` spaces.
pub open spec fn spaces(m: nat) -> Seq<u8> {
    Seq::new(m, |i: int| 32u8)
}

proof fn lemma_spaces_valid_utf8(m: nat)
    ensures
        valid_utf8(spaces(m)),
    decreases m,
{
    if m > 0 {
        lemma_spaces_valid_utf8((m - 1) as nat);
        let s = spaces(m);
        assert(s[0] == 32u8);
        assert(pop_first_scalar(s) =~= spaces((m - 1) as nat));
    }
}

proof fn lemma_trim_padding(value: Seq<u8>, m: nat)
    requires
        value.len() == 0 || value.last() != 32u8,
    ensures
        trim_spaces(value + spaces(m)) == value,
    decreases m,
{
    if m == 0 {
        assert(value + spaces(0) =~= value);
    } else {
        lemma_trim_padding(value, (m - 1) as nat);
        let s = value + spaces(m);
        assert(s.last() == 32u8);
        assert(s.drop_last() =~= value + spaces((m - 1) as nat));
    }
}

/// Writing a field and reading it back: text whose UTF-8 bytes fit in the
/// width and do not end in a space is written as exactly `width` bytes, and
/// the column that spans them reads the same text back.
pub proof fn law_field_reads_back(text: Seq<char>, width: nat, col: ColumnView, i: nat)
    requires
        width >= 1,
        encode_utf8(text).len() <= width,
        encode_utf8(text).len() == 0 || encode_utf8(text).last() != 32u8,
        col.start_pos == 1,
        col.end_pos == width,
    ensures
        spec_field_bytes(encode_utf8(text), width).len() == width,
        spec_field(spec_field_bytes(encode_utf8(text), width), col, i) == Ok::<Seq<u8>, RowError>(
            encode_utf8(text),
        ),
{
    let v = encode_utf8(text);
    let m = (width - v.len()) as nat;
    let f = spec_field_bytes(v, width);
    encode_utf8_valid_utf8(text);
    lemma_spaces_valid_utf8(m);
    valid_utf8_concat(v, spaces(m));
    lemma_trim_padding(v, m);
    if v.len() >= width {
        assert(f =~= v);
        assert(v + spaces(m) =~= v);
    } else {
        assert(f =~= v + spaces(m));
    }
    assert(f.subrange(0, width as int) =~= f);
}

// ---------------------------------------------------------------------------
// Thousands
// ---------------------------------------------------------------------------
/// Decimal digits with a `,` before each group of three from the right.
pub open spec fn with_commas(d: Seq<char>) -> Seq<char>
    decreases d.len(),
{
    if d.len() <= 3 {
        d
    } else {
        with_commas(d.take(d.len() - 3)) + ","@ + d.skip(d.len() - 3)
    }
}

fn group_digits(s: &str) -> (r: String)
    ensures
        r@ == with_commas(s@),
    decreases s@.len(),
{
    let n = s.unicode_len();
    if n <= 3 {
        return String::from_str(s);
    }
    let head = s.substring_char(0, n - 3);
    let mut r = group_digits(head);
    r.append(",");
    r.append(s.substring_char(n - 3, n));
    r
}

/// `n` in decimal with thousands separators: `1,234,567`.
pub fn format_thousands(n: usize) -> (r: String)
    ensures
        r@ == with_commas(dec(n as nat)),
{
    let s = fmt_uint(n as u64);
    group_digits(s.as_str())
}

} // verus!
