//! The parts of a `/`-separated path that the loader reads: its file name
//! and the extension of that name.
use vstd::prelude::*;
use crate::text::{last_index, rfind_char, lemma_last_index};

verus! {

/// The final component of a `/`-separated path, as `Path::file_name` gives
/// it: repeated and trailing separators and `.` components are ignored, and
/// there is none when the path is empty, a root, or ends in `..`.
pub open spec fn file_name(s: Seq<char>) -> Option<Seq<char>>
    decreases s.len(),
{
    if s.len() == 0 {
        None
    } else if s.last() == '/' {
        file_name(s.drop_last())
    } else {
        let st = match last_index(s, '/') {
            Some(i) => i + 1,
            None => 0,
        };
        let piece = s.subrange(st, s.len() as int);
        if piece == seq!['.'] {
            proof {
                lemma_last_index(s, '/');
            }
            file_name(s.subrange(0, st))
        } else if piece == seq!['.', '.'] {
            None
        } else {
            Some(piece)
        }
    }
}

/// The extension of a file name (`Path::extension`): what follows the last
/// `.`, unless there is none or the only `.` starts the name.
pub open spec fn extension(name: Seq<char>) -> Option<Seq<char>> {
    match last_index(name, '.') {
        Some(d) => if d == 0 {
            None
        } else {
            Some(name.subrange(d + 1, name.len() as int))
        },
        None => None,
    }
}

/// Whether the path names a gzip file: its extension is `gz` in any ASCII case.
pub open spec fn spec_is_gzip(path: Seq<char>) -> bool {
    match file_name(path) {
        Some(n) => match extension(n) {
            Some(e) => e.len() == 2 && (e[0] == 'g' || e[0] == 'G') && (e[1] == 'z' || e[1]
                == 'Z'),
            None => false,
        },
        None => false,
    }
}

/// Character bounds of the file name of `cs[0..hi]`.
pub fn file_name_bounds(cs: &Vec<char>, hi: usize) -> (r: Option<(usize, usize)>)
    requires
        hi <= cs@.len(),
    ensures
        match r {
            Some((a, b)) => a <= b <= hi && file_name(cs@.subrange(0, hi as int)) == Some(
                cs@.subrange(a as int, b as int),
            ),
            None => file_name(cs@.subrange(0, hi as int)) is None,
        },
{
    let mut end = hi;
    loop
        invariant
            end <= hi <= cs@.len(),
            file_name(cs@.subrange(0, hi as int)) == file_name(cs@.subrange(0, end as int)),
        decreases end,
    {
        if end == 0 {
            return None;
        }
        if cs[end - 1] == '/' {
            assert(cs@.subrange(0, end as int).drop_last() =~= cs@.subrange(0, end - 1));
            end = end - 1;
        } else {
            let ghost s = cs@.subrange(0, end as int);
            let slash = rfind_char(cs, 0, end, '/');
            let st = if slash < end {
                slash + 1
            } else {
                0
            };
            proof {
                lemma_last_index(s, '/');
            }
            assert(s.subrange(st as int, s.len() as int) =~= cs@.subrange(st as int, end as int));
            if end - st == 1 && cs[st] == '.' {
                assert(cs@.subrange(st as int, end as int) =~= seq!['.']);
                assert(s.subrange(0, st as int) =~= cs@.subrange(0, st as int));
                end = st;
            } else if end - st == 2 && cs[st] == '.' && cs[st + 1] == '.' {
                assert(cs@.subrange(st as int, end as int) =~= seq!['.', '.']);
                return None;
            } else {
                proof {
                    if cs@.subrange(st as int, end as int) == seq!['.'] {
                        assert(cs@.subrange(st as int, end as int)[0] == cs@[st as int]);
                    }
                    if cs@.subrange(st as int, end as int) == seq!['.', '.'] {
                        assert(cs@.subrange(st as int, end as int)[0] == cs@[st as int]);
                        assert(cs@.subrange(st as int, end as int)[1] == cs@[st + 1]);
                    }
                }
                return Some((st, end));
            }
        }
    }
}

/// Whether `path` names a gzip file (`.gz` in any ASCII case).
pub fn is_gzip(path: &Vec<char>) -> (r: bool)
    ensures
        r == spec_is_gzip(path@),
{
    assert(path@.subrange(0, path@.len() as int) =~= path@);
    match file_name_bounds(path, path.len()) {
        None => false,
        Some((a, b)) => {
            let ghost n = path@.subrange(a as int, b as int);
            let d = rfind_char(path, a, b, '.');
            if d == b || d == a {
                false
            } else {
                assert(n.subrange(d - a + 1, n.len() as int) =~= path@.subrange(d + 1, b as int));
                if b - (d + 1) != 2 {
                    false
                } else {
                    let c0 = path[d + 1];
                    let c1 = path[d + 2];
                    assert(path@.subrange(d + 1, b as int)[0] == c0);
                    assert(path@.subrange(d + 1, b as int)[1] == c1);
                    (c0 == 'g' || c0 == 'G') && (c1 == 'z' || c1 == 'Z')
                }
            }
        },
    }
}

} // verus!
