//! Parsers of the two-file exchange format: `.flg` metadata and fixed-width
//! `.dat` data; and the pairing of the two files of each table in a directory.
//!
//! Files are named `<TABLE>.<YYYYMMDD>.<HHMMSS>.<SEQUENCE>.<EXT>`, for example
//! `employee.20260421.000000.0000.flg` with `employee.20260421.000000.0000.dat.gz`.
pub mod dat;
pub mod flg;

use vstd::prelude::*;
use vstd::string::*;
use vstd::utf8::{encode_utf8, encode_utf8_decode_utf8};
use crate::models::{GutFilePair, PairView};
use crate::order::{
    bytes_lt, compare_bytes, lemma_bytes_lt_asymmetric, lemma_bytes_lt_irreflexive,
    lemma_bytes_lt_total, lemma_bytes_lt_transitive,
};
use crate::text::{first_index, find_char, lemma_first_index, substring, to_chars};

verus! {

/// A file of a directory: its name and its path.
#[derive(Debug, Clone)]
pub struct DirEntry {
    pub name: String,
    pub path: String,
}

/// Index of the last entry named `name`, if any.
pub open spec fn last_named(es: Seq<DirEntry>, name: Seq<char>) -> Option<int>
    decreases es.len(),
{
    if es.len() == 0 {
        None
    } else if es.last().name@ == name {
        Some(es.len() - 1)
    } else {
        last_named(es.drop_last(), name)
    }
}

/// Index of the first entry named `name`, if any.
pub open spec fn first_named(es: Seq<DirEntry>, name: Seq<char>) -> Option<int>
    decreases es.len(),
{
    if es.len() == 0 {
        None
    } else if es[0].name@ == name {
        Some(0)
    } else {
        match first_named(es.drop_first(), name) {
            Some(i) => Some(i + 1),
            None => None,
        }
    }
}

/// The four parts of `TABLE.DATE.TIME.SEQUENCE` (`str::splitn(4, '.')`);
/// the last part keeps any further `.`.
pub open spec fn split4(s: Seq<char>) -> Option<(Seq<char>, Seq<char>, Seq<char>, Seq<char>)> {
    match first_index(s, '.') {
        None => None,
        Some(a) => {
            let r1 = s.subrange(a + 1, s.len() as int);
            match first_index(r1, '.') {
                None => None,
                Some(b) => {
                    let r2 = r1.subrange(b + 1, r1.len() as int);
                    match first_index(r2, '.') {
                        None => None,
                        Some(c) => Some(
                            (
                                s.subrange(0, a),
                                r1.subrange(0, b),
                                r2.subrange(0, c),
                                r2.subrange(c + 1, r2.len() as int),
                            ),
                        ),
                    }
                },
            }
        },
    }
}

pub open spec fn flg_name(stem: Seq<char>) -> Seq<char> {
    stem + ".flg"@
}

pub open spec fn dat_name(stem: Seq<char>) -> Seq<char> {
    stem + ".dat.gz"@
}

/// The pair of files of `stem`: present when the directory holds both
/// `stem.flg` and `stem.dat.gz` and the stem has four `.`-separated parts.
/// Of several entries of the same name the last one counts.
pub open spec fn pair_of(es: Seq<DirEntry>, stem: Seq<char>) -> Option<PairView> {
    match last_named(es, flg_name(stem)) {
        None => None,
        Some(f) => match last_named(es, dat_name(stem)) {
            None => None,
            Some(d) => match split4(stem) {
                None => None,
                Some((t, dt, tm, sq)) => Some(
                    PairView {
                        table_name: t,
                        date: dt,
                        time: tm,
                        sequence: sq,
                        flg_path: es[f].path@,
                        dat_path: es[d].path@,
                    },
                ),
            },
        },
    }
}

/// The stem that the parts of a pair spell.
pub open spec fn stem_of(p: PairView) -> Seq<char> {
    p.table_name + seq!['.'] + p.date + seq!['.'] + p.time + seq!['.'] + p.sequence
}

/// `a` sorts before `b`: by table name, then date, then time, then
/// sequence, each compared as bytes.
pub open spec fn pair_lt(a: PairView, b: PairView) -> bool {
    let (a0, a1, a2, a3) = (
        encode_utf8(a.table_name),
        encode_utf8(a.date),
        encode_utf8(a.time),
        encode_utf8(a.sequence),
    );
    let (b0, b1, b2, b3) = (
        encode_utf8(b.table_name),
        encode_utf8(b.date),
        encode_utf8(b.time),
        encode_utf8(b.sequence),
    );
    ||| bytes_lt(a0, b0)
    ||| a0 == b0 && bytes_lt(a1, b1)
    ||| a0 == b0 && a1 == b1 && bytes_lt(a2, b2)
    ||| a0 == b0 && a1 == b1 && a2 == b2 && bytes_lt(a3, b3)
}

/// The four parts of two pairs are the same.
pub open spec fn same_key(a: PairView, b: PairView) -> bool {
    a.table_name == b.table_name && a.date == b.date && a.time == b.time && a.sequence
        == b.sequence
}

proof fn lemma_encode_injective(a: Seq<char>, b: Seq<char>)
    requires
        encode_utf8(a) == encode_utf8(b),
    ensures
        a == b,
{
    encode_utf8_decode_utf8(a);
    encode_utf8_decode_utf8(b);
}

proof fn lemma_pair_lt_order(a: PairView, b: PairView, c: PairView)
    ensures
        !pair_lt(a, a),
        pair_lt(a, b) ==> !pair_lt(b, a) && !same_key(a, b),
        pair_lt(a, b) && pair_lt(b, c) ==> pair_lt(a, c),
        same_key(a, b) || pair_lt(a, b) || pair_lt(b, a),
{
    let (a0, a1, a2, a3) = (
        encode_utf8(a.table_name),
        encode_utf8(a.date),
        encode_utf8(a.time),
        encode_utf8(a.sequence),
    );
    let (b0, b1, b2, b3) = (
        encode_utf8(b.table_name),
        encode_utf8(b.date),
        encode_utf8(b.time),
        encode_utf8(b.sequence),
    );
    let (c0, c1, c2, c3) = (
        encode_utf8(c.table_name),
        encode_utf8(c.date),
        encode_utf8(c.time),
        encode_utf8(c.sequence),
    );
    lemma_bytes_lt_irreflexive(a0);
    lemma_bytes_lt_irreflexive(a1);
    lemma_bytes_lt_irreflexive(a2);
    lemma_bytes_lt_irreflexive(a3);
    lemma_bytes_lt_total(a0, b0);
    lemma_bytes_lt_total(a1, b1);
    lemma_bytes_lt_total(a2, b2);
    lemma_bytes_lt_total(a3, b3);
    if bytes_lt(a0, b0) {
        lemma_bytes_lt_asymmetric(a0, b0);
    }
    if bytes_lt(a1, b1) {
        lemma_bytes_lt_asymmetric(a1, b1);
    }
    if bytes_lt(a2, b2) {
        lemma_bytes_lt_asymmetric(a2, b2);
    }
    if bytes_lt(a3, b3) {
        lemma_bytes_lt_asymmetric(a3, b3);
    }
    if bytes_lt(a0, b0) && bytes_lt(b0, c0) {
        lemma_bytes_lt_transitive(a0, b0, c0);
    }
    if bytes_lt(a1, b1) && bytes_lt(b1, c1) {
        lemma_bytes_lt_transitive(a1, b1, c1);
    }
    if bytes_lt(a2, b2) && bytes_lt(b2, c2) {
        lemma_bytes_lt_transitive(a2, b2, c2);
    }
    if bytes_lt(a3, b3) && bytes_lt(b3, c3) {
        lemma_bytes_lt_transitive(a3, b3, c3);
    }
    if a0 == b0 && a1 == b1 && a2 == b2 && a3 == b3 {
        lemma_encode_injective(a.table_name, b.table_name);
        lemma_encode_injective(a.date, b.date);
        lemma_encode_injective(a.time, b.time);
        lemma_encode_injective(a.sequence, b.sequence);
    }
}

/// Compares two pairs by their four parts: -1, 0 or 1.
fn compare_pairs(a: &GutFilePair, b: &GutFilePair) -> (r: i8)
    ensures
        r == -1 <==> pair_lt(a@, b@),
        r == 1 <==> pair_lt(b@, a@),
        r == 0 <==> same_key(a@, b@),
{
    proof {
        lemma_pair_lt_order(a@, b@, a@);
        lemma_pair_lt_order(b@, a@, b@);
    }
    let c0 = compare_bytes(a.table_name.as_str().as_bytes(), b.table_name.as_str().as_bytes());
    if c0 != 0 {
        return c0;
    }
    let c1 = compare_bytes(a.date.as_str().as_bytes(), b.date.as_str().as_bytes());
    if c1 != 0 {
        return c1;
    }
    let c2 = compare_bytes(a.time.as_str().as_bytes(), b.time.as_str().as_bytes());
    if c2 != 0 {
        return c2;
    }
    compare_bytes(a.sequence.as_str().as_bytes(), b.sequence.as_str().as_bytes())
}

} // verus!

verus! {

proof fn lemma_named(es: Seq<DirEntry>, name: Seq<char>)
    ensures
        last_named(es, name) is Some <==> first_named(es, name) is Some,
        last_named(es, name) matches Some(i) ==> 0 <= i < es.len() && es[i].name@ == name,
        first_named(es, name) matches Some(i) ==> 0 <= i < es.len() && es[i].name@ == name
            && forall|j: int| 0 <= j < i ==> es[j].name@ != name,
        first_named(es, name) is None ==> forall|j: int| 0 <= j < es.len() ==> es[j].name@ != name,
    decreases es.len(),
{
    if es.len() > 0 {
        lemma_named(es.drop_last(), name);
        lemma_named(es.drop_first(), name);
        assert forall|j: int| 0 < j < es.len() implies es[j] == es.drop_first()[j - 1] by {}
        assert forall|j: int| 0 <= j < es.len() - 1 implies es[j] == es.drop_last()[j] by {}
        if es[0].name@ != name && first_named(es.drop_first(), name) is None {
            if last_named(es, name) is Some {
                if es.last().name@ == name {
                    assert(es.drop_first()[es.len() - 2] == es.last());
                }
            }
        }
        if last_named(es.drop_last(), name) is None && es.last().name@ != name {
            if es[0].name@ == name {
                if es.len() > 1 {
                    assert(es.drop_last()[0] == es[0]);
                }
            }
        }
    }
}

proof fn lemma_stem_of_split4(s: Seq<char>)
    requires
        split4(s) is Some,
    ensures
        ({
            let (t, d, m, q) = split4(s).unwrap();
            &&& t + seq!['.'] + d + seq!['.'] + m + seq!['.'] + q == s
            &&& forall|j: int| 0 <= j < t.len() ==> t[j] != '.'
            &&& forall|j: int| 0 <= j < d.len() ==> d[j] != '.'
            &&& forall|j: int| 0 <= j < m.len() ==> m[j] != '.'
        }),
{
    let a = first_index(s, '.').unwrap();
    lemma_first_index(s, '.');
    let r1 = s.subrange(a + 1, s.len() as int);
    let b = first_index(r1, '.').unwrap();
    lemma_first_index(r1, '.');
    let r2 = r1.subrange(b + 1, r1.len() as int);
    let c = first_index(r2, '.').unwrap();
    lemma_first_index(r2, '.');
    let (t, d, m, q) = split4(s).unwrap();
    assert(r2 =~= m + seq!['.'] + q);
    assert(r1 =~= d + seq!['.'] + r2);
    assert(s =~= t + seq!['.'] + r1);
    assert(t + seq!['.'] + d + seq!['.'] + m + seq!['.'] + q =~= s);
}

/// A pair found for a stem spells that stem.
proof fn lemma_pair_of_stem(es: Seq<DirEntry>, stem: Seq<char>)
    requires
        pair_of(es, stem) is Some,
    ensures
        stem_of(pair_of(es, stem).unwrap()) == stem,
        pair_of(es, stem_of(pair_of(es, stem).unwrap())) == pair_of(es, stem),
{
    lemma_stem_of_split4(stem);
}

/// Two found pairs with the same four parts are the same pair.
proof fn lemma_same_key_same_pair(es: Seq<DirEntry>, p: PairView, q: PairView)
    requires
        pair_of(es, stem_of(p)) == Some(p),
        pair_of(es, stem_of(q)) == Some(q),
        same_key(p, q),
    ensures
        p == q,
{
    assert(stem_of(p) == stem_of(q));
}

/// Index of the last entry named `name`.
fn find_last_named(es: &Vec<DirEntry>, name: &String) -> (r: Option<usize>)
    ensures
        match r {
            Some(i) => last_named(es@, name@) == Some(i as int),
            None => last_named(es@, name@) is None,
        },
{
    let mut j = es.len();
    assert(es@.subrange(0, j as int) =~= es@);
    while j > 0
        invariant
            j <= es@.len(),
            last_named(es@, name@) == last_named(es@.subrange(0, j as int), name@),
        decreases j,
    {
        let ghost pre = es@.subrange(0, j as int);
        assert(pre.last() == es@[j - 1]);
        if es[j - 1].name == *name {
            return Some(j - 1);
        }
        assert(pre.drop_last() =~= es@.subrange(0, j - 1));
        j = j - 1;
    }
    None
}

/// Positions of the first three `.` of `cs[0..hi]`, as `split4` cuts it.
fn split_stem(cs: &Vec<char>, hi: usize) -> (r: Option<(usize, usize, usize)>)
    requires
        hi <= cs@.len(),
    ensures
        match r {
            None => split4(cs@.subrange(0, hi as int)) is None,
            Some((a, b, c)) => a < b < c < hi && split4(cs@.subrange(0, hi as int)) == Some(
                (
                    cs@.subrange(0, a as int),
                    cs@.subrange(a + 1, b as int),
                    cs@.subrange(b + 1, c as int),
                    cs@.subrange(c + 1, hi as int),
                ),
            ),
        },
{
    let ghost s = cs@.subrange(0, hi as int);
    let a = find_char(cs, 0, hi, '.');
    if a == hi {
        return None;
    }
    let ghost r1 = s.subrange(a + 1, s.len() as int);
    assert(r1 =~= cs@.subrange(a + 1, hi as int));
    let b = find_char(cs, a + 1, hi, '.');
    if b == hi {
        return None;
    }
    let ghost r2 = r1.subrange(b - a, r1.len() as int);
    assert(r2 =~= cs@.subrange(b + 1, hi as int));
    let c = find_char(cs, b + 1, hi, '.');
    if c == hi {
        return None;
    }
    assert(s.subrange(0, a as int) =~= cs@.subrange(0, a as int));
    assert(r1.subrange(0, b - a - 1) =~= cs@.subrange(a + 1, b as int));
    assert(r2.subrange(0, c - b - 1) =~= cs@.subrange(b + 1, c as int));
    assert(r2.subrange(c - b, r2.len() as int) =~= cs@.subrange(c + 1, hi as int));
    Some((a, b, c))
}

/// The sorted, found pairs `out` of the listing `es`.
pub open spec fn sorted_found(es: Seq<DirEntry>, out: Seq<GutFilePair>) -> bool {
    &&& forall|k: int| 0 <= k < out.len() ==> pair_of(es, stem_of(#[trigger] out[k]@)) == Some(
        out[k]@,
    )
    &&& forall|k1: int, k2: int|
        0 <= k1 < k2 < out.len() ==> pair_lt(#[trigger] out[k1]@, #[trigger] out[k2]@)
}

/// Adds `p` at its place in `out`, unless a pair of the same parts is there.
#[verifier::rlimit(40)]
fn insert_sorted(out: &mut Vec<GutFilePair>, p: GutFilePair, Ghost(es): Ghost<Seq<DirEntry>>) -> (ins: Option<usize>)
    requires
        sorted_found(es, old(out)@),
        pair_of(es, stem_of(p@)) == Some(p@),
    ensures
        sorted_found(es, final(out)@),
        match ins {
            None => final(out)@ == old(out)@,
            Some(k) => k <= old(out)@.len() && final(out)@ == old(out)@.insert(k as int, p),
        },
        exists|k: int| 0 <= k < final(out)@.len() && #[trigger] final(out)@[k]@ == p@,
{
    let ghost old_out = out@;
    let mut k: usize = 0;
    while k < out.len() && compare_pairs(&out[k], &p) == -1
        invariant
            out@ == old_out,
            k <= out@.len(),
            forall|j: int| 0 <= j < k ==> pair_lt(#[trigger] out@[j]@, p@),
        decreases out@.len() - k,
    {
        k = k + 1;
    }
    if k < out.len() && compare_pairs(&out[k], &p) == 0 {
        proof {
            lemma_same_key_same_pair(es, out@[k as int]@, p@);
        }
        return None;
    }
    proof {
        if k < out@.len() {
            lemma_pair_lt_order(out@[k as int]@, p@, p@);
            assert(pair_lt(p@, out@[k as int]@));
            assert forall|j: int| k < j < out@.len() implies pair_lt(p@, #[trigger] out@[j]@) by {
                lemma_pair_lt_order(p@, out@[k as int]@, out@[j]@);
            }
        }
        old_out.insert_ensures(k as int, p);
    }
    out.insert(k, p);
    proof {
        assert(out@ == old_out.insert(k as int, p));
        assert forall|j: int| 0 <= j < out@.len() implies pair_of(es, stem_of(#[trigger] out@[j]@))
            == Some(out@[j]@) by {
            if j < k {
                assert(out@[j] == old_out[j]);
            } else if j > k {
                assert(out@[j] == old_out[j - 1]);
            }
        }
        assert forall|k1: int, k2: int| 0 <= k1 < k2 < out@.len() implies pair_lt(
            #[trigger] out@[k1]@,
            #[trigger] out@[k2]@,
        ) by {
            if k1 < k {
                assert(out@[k1] == old_out[k1]);
            } else if k1 > k {
                assert(out@[k1] == old_out[k1 - 1]);
            }
            if k2 < k {
                assert(out@[k2] == old_out[k2]);
            } else if k2 > k {
                assert(out@[k2] == old_out[k2 - 1]);
            }
            if k1 < k && k2 > k {
                lemma_pair_lt_order(old_out[k1]@, p@, old_out[k2 - 1]@);
            }
        }
        assert(out@[k as int]@ == p@);
    }
    Some(k)
}

/// Pairs the `.flg` and `.dat.gz` files of a directory listing.
///
/// A pair is returned for each stem `TABLE.DATE.TIME.SEQUENCE` for which
/// both `stem.flg` and `stem.dat.gz` are listed; stems without four
/// `.`-separated parts are skipped. The pairs come sorted by table name,
/// date, time and sequence.
#[verifier::rlimit(40)]
pub fn scan_directory(entries: &Vec<DirEntry>) -> (r: Vec<GutFilePair>)
    ensures
        sorted_found(entries@, r@),
        forall|stem: Seq<char>| #[trigger]
            pair_of(entries@, stem) is Some ==> exists|k: int|
                0 <= k < r@.len() && Some(#[trigger] r@[k]@) == pair_of(entries@, stem),
{
    let ghost es = entries@;
    let n = entries.len();
    let mut out: Vec<GutFilePair> = Vec::new();
    let mut i: usize = 0;
    proof {
        reveal_strlit(".flg");
        reveal_strlit(".dat.gz");
        assert forall|stem: Seq<char>| #[trigger]
            pair_of(es, stem) is Some && (first_named(es, flg_name(stem)) matches Some(f) && f
                < 0) implies exists|k: int|
            0 <= k < out@.len() && Some(#[trigger] out@[k]@) == pair_of(es, stem) by {
            lemma_named(es, flg_name(stem));
        }
    }
    while i < n
        invariant
            es == entries@,
            n == es.len(),
            i <= n,
            ".flg"@ == seq!['.', 'f', 'l', 'g'],
            sorted_found(es, out@),
            forall|stem: Seq<char>| #[trigger]
                pair_of(es, stem) is Some && (first_named(es, flg_name(stem)) matches Some(f) && f
                    < i) ==> exists|k: int|
                    0 <= k < out@.len() && Some(#[trigger] out@[k]@) == pair_of(es, stem),
        decreases n - i,
    {
        let name = &entries[i].name;
        let cs = to_chars(name.as_str());
        let len = cs.len();
        let is_flg = len >= 4 && cs[len - 4] == '.' && cs[len - 3] == 'f' && cs[len - 2] == 'l'
            && cs[len - 1] == 'g';
        let ghost old_out = out@;
        let ghost mut ins: Option<usize> = None;
        let ghost mut stem: Seq<char> = Seq::empty();
        let mut added = false;
        if is_flg {
            proof {
                stem = cs@.subrange(0, len - 4);
            }
            assert(name@ =~= flg_name(stem));
            let mut dat = substring(name.as_str(), 0, len - 4);
            dat.append(".dat.gz");
            assert(dat@ == dat_name(stem));
            let f = find_last_named(entries, name);
            let d = find_last_named(entries, &dat);
            if f.is_some() && d.is_some() {
                let fi = f.unwrap();
                let di = d.unwrap();
                proof {
                    lemma_named(es, name@);
                    lemma_named(es, dat@);
                }
                match split_stem(&cs, len - 4) {
                    Some((a, b, c)) => {
                        let p = GutFilePair {
                            table_name: substring(name.as_str(), 0, a),
                            date: substring(name.as_str(), a + 1, b),
                            time: substring(name.as_str(), b + 1, c),
                            sequence: substring(name.as_str(), c + 1, len - 4),
                            flg_path: entries[fi].path.clone(),
                            dat_path: entries[di].path.clone(),
                        };
                        assert(pair_of(es, stem) == Some(p@));
                        proof {
                            lemma_pair_of_stem(es, stem);
                        }
                        let r = insert_sorted(&mut out, p, Ghost(es));
                        proof {
                            ins = r;
                        }
                        assert(exists|k: int| 0 <= k < out@.len() && Some(#[trigger] out@[k]@)
                            == pair_of(es, stem));
                        added = true;
                    },
                    None => {},
                }
            }
            assert(!added ==> pair_of(es, stem) is None) by {
                lemma_named(es, name@);
            }
        }
        proof {
            assert forall|stem2: Seq<char>| #[trigger]
                pair_of(es, stem2) is Some && (first_named(es, flg_name(stem2)) matches Some(f2)
                    && f2 < i + 1) implies exists|k: int|
                0 <= k < out@.len() && Some(#[trigger] out@[k]@) == pair_of(es, stem2) by {
                lemma_named(es, flg_name(stem2));
                let f2 = first_named(es, flg_name(stem2)).unwrap();
                if f2 == i {
                    let nm = flg_name(stem2);
                    assert(nm[nm.len() - 4] == '.');
                    assert(nm[nm.len() - 3] == 'f');
                    assert(nm[nm.len() - 2] == 'l');
                    assert(nm[nm.len() - 1] == 'g');
                    assert(nm == name@);
                    assert(stem2 =~= nm.subrange(0, stem2.len() as int));
                    assert(stem2 =~= stem);
                } else {
                    let k0 = choose|k: int|
                        0 <= k < old_out.len() && Some(#[trigger] old_out[k]@) == pair_of(
                            es,
                            stem2,
                        );
                    match ins {
                        None => {
                            assert(out@[k0] == old_out[k0]);
                        },
                        Some(kk) => {
                            if k0 < kk {
                                assert(out@[k0] == old_out[k0]);
                            } else {
                                assert(out@[k0 + 1] == old_out[k0]);
                            }
                        },
                    }
                }
            }
        }
        i = i + 1;
    }
    proof {
        assert forall|stem: Seq<char>| #[trigger] pair_of(es, stem) is Some implies exists|k: int|
            0 <= k < out@.len() && Some(#[trigger] out@[k]@) == pair_of(es, stem) by {
            lemma_named(es, flg_name(stem));
        }
    }
    out
}

} // verus!
