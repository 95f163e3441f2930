//! The layout check of a `.flg` file: fields sorted by start position must
//! follow each other without gap or overlap, from byte 1 to ROWLENGTH.
use vstd::prelude::*;
use vstd::string::*;
use crate::models::{ColumnDefinition, ColumnView, FlgMetadata, PreCheckResult};
use crate::text::{dec, join, join_strings, push_uint};

verus! {

/// How many of `s` start at or before `key`.
pub open spec fn count_le(s: Seq<ColumnView>, key: nat) -> nat
    decreases s.len(),
{
    if s.len() == 0 {
        0
    } else {
        count_le(s.drop_last(), key) + (if s.last().start_pos <= key {
            1nat
        } else {
            0nat
        })
    }
}

/// `s` sorted by start position, columns of equal start keeping their order
/// (what a stable sort by `start_pos` gives).
pub open spec fn sort_by_start(s: Seq<ColumnView>) -> Seq<ColumnView>
    decreases s.len(),
{
    if s.len() == 0 {
        s
    } else {
        let t = sort_by_start(s.drop_last());
        t.insert(count_le(t, s.last().start_pos) as int, s.last())
    }
}

proof fn lemma_count_le_bound(s: Seq<ColumnView>, key: nat)
    ensures
        count_le(s, key) <= s.len(),
    decreases s.len(),
{
    if s.len() > 0 {
        lemma_count_le_bound(s.drop_last(), key);
    }
}

proof fn lemma_sort_len(s: Seq<ColumnView>)
    ensures
        sort_by_start(s).len() == s.len(),
    decreases s.len(),
{
    if s.len() > 0 {
        lemma_sort_len(s.drop_last());
        lemma_count_le_bound(sort_by_start(s.drop_last()), s.last().start_pos);
    }
}

/// Sorting by start position yields columns in non-decreasing start order.
pub proof fn law_sort_by_start_sorted(s: Seq<ColumnView>)
    ensures
        sort_by_start(s).len() == s.len(),
        forall|i: int, j: int|
            0 <= i < j < s.len() ==> (#[trigger] sort_by_start(s)[i]).start_pos <= (
            #[trigger] sort_by_start(s)[j]).start_pos,
    decreases s.len(),
{
    lemma_sort_len(s);
    if s.len() > 0 {
        let t = sort_by_start(s.drop_last());
        let c = s.last();
        law_sort_by_start_sorted(s.drop_last());
        lemma_count_le_bound(t, c.start_pos);
        let p = count_le(t, c.start_pos) as int;
        lemma_count_le_prefix(t, c.start_pos);
        t.insert_ensures(p, c);
        let u = t.insert(p, c);
        assert forall|i: int, j: int| 0 <= i < j < u.len() implies (#[trigger] u[i]).start_pos <= (
        #[trigger] u[j]).start_pos by {
            if i < p && j < p {
                assert(u[i] == t[i] && u[j] == t[j]);
            } else if i < p && j == p {
                assert(u[i] == t[i]);
            } else if i < p && j > p {
                assert(u[i] == t[i] && u[j] == t[j - 1]);
            } else if i == p {
                assert(u[j] == t[j - 1]);
            } else {
                assert(u[i] == t[i - 1] && u[j] == t[j - 1]);
            }
        }
    }
}

/// In a sequence sorted by start, the columns starting at or before `key` come first.
proof fn lemma_count_le_prefix(t: Seq<ColumnView>, key: nat)
    requires
        forall|i: int, j: int|
            0 <= i < j < t.len() ==> (#[trigger] t[i]).start_pos <= (#[trigger] t[j]).start_pos,
    ensures
        forall|i: int| 0 <= i < count_le(t, key) ==> (#[trigger] t[i]).start_pos <= key,
        forall|i: int| count_le(t, key) <= i < t.len() ==> (#[trigger] t[i]).start_pos > key,
    decreases t.len(),
{
    if t.len() > 0 {
        let u = t.drop_last();
        assert forall|i: int, j: int| 0 <= i < j < u.len() implies (#[trigger] u[i]).start_pos <= (
        #[trigger] u[j]).start_pos by {
            assert(u[i] == t[i] && u[j] == t[j]);
        }
        lemma_count_le_prefix(u, key);
        lemma_count_le_bound(u, key);
        let c = count_le(u, key);
        let last = t.last();
        if last.start_pos <= key {
            if c < u.len() {
                assert(t[c as int].start_pos <= t[t.len() - 1].start_pos);
                assert(u[c as int] == t[c as int]);
                assert(false);
            }
            assert forall|i: int| 0 <= i < count_le(t, key) implies (#[trigger] t[i]).start_pos
                <= key by {
                if i < c {
                    assert(u[i] == t[i]);
                }
            }
        } else {
            assert forall|i: int| 0 <= i < count_le(t, key) implies (#[trigger] t[i]).start_pos
                <= key by {
                assert(u[i] == t[i]);
            }
            assert forall|i: int| count_le(t, key) <= i < t.len() implies (#[trigger] t[i]).start_pos
                > key by {
                if i < u.len() {
                    assert(u[i] == t[i]);
                }
            }
        }
    }
}

/// Indices into `cols` in the order of [`sort_by_start`].
fn sorted_order(cols: &Vec<ColumnDefinition>) -> (order: Vec<usize>)
    ensures
        order@.len() == cols@.len(),
        forall|k: int| 0 <= k < order@.len() ==> (#[trigger] order@[k]) < cols@.len(),
        order@.map_values(|i: usize| cols@[i as int]@) == sort_by_start(
            cols@.map_values(|c: ColumnDefinition| c@),
        ),
{
    let ghost all = cols@.map_values(|c: ColumnDefinition| c@);
    let mut order: Vec<usize> = Vec::new();
    let n = cols.len();
    let mut i: usize = 0;
    assert(all.take(0) =~= Seq::<ColumnView>::empty());
    assert(order@.map_values(|k: usize| cols@[k as int]@) =~= Seq::<ColumnView>::empty());
    while i < n
        invariant
            n == cols@.len(),
            all == cols@.map_values(|c: ColumnDefinition| c@),
            i <= n,
            order@.len() == i,
            forall|k: int| 0 <= k < order@.len() ==> (#[trigger] order@[k]) < n,
            order@.map_values(|k: usize| cols@[k as int]@) == sort_by_start(all.take(i as int)),
        decreases n - i,
    {
        let ghost t = order@.map_values(|k: usize| cols@[k as int]@);
        let key = cols[i].start_pos;
        let mut p: usize = 0;
        let mut j: usize = 0;
        while j < order.len()
            invariant
                j <= order@.len(),
                p <= j,
                forall|k: int| 0 <= k < order@.len() ==> (#[trigger] order@[k]) < n,
                n == cols@.len(),
                t == order@.map_values(|k: usize| cols@[k as int]@),
                p == count_le(t.take(j as int), key as nat),
            decreases order@.len() - j,
        {
            assert(t.take(j + 1).drop_last() =~= t.take(j as int));
            assert(t.take(j + 1).last() == cols@[order@[j as int] as int]@);
            if cols[order[j]].start_pos <= key {
                p = p + 1;
            }
            j = j + 1;
        }
        assert(t.take(order@.len() as int) =~= t);
        assert(all.take(i + 1).drop_last() =~= all.take(i as int));
        assert(all.take(i + 1).last() == cols@[i as int]@);
        let ghost before = order@;
        order.insert(p, i);
        assert(order@.map_values(|k: usize| cols@[k as int]@) =~= t.insert(
            p as int,
            cols@[i as int]@,
        )) by {
            before.insert_ensures(p as int, i);
            t.insert_ensures(p as int, cols@[i as int]@);
        }
        i = i + 1;
        assert forall|k: int| 0 <= k < order@.len() implies (#[trigger] order@[k]) < n by {
            before.insert_ensures(p as int, (i - 1) as usize);
            if k < p {
                assert(order@[k] == before[k]);
            } else if k > p {
                assert(order@[k] == before[k - 1]);
            }
        }
    }
    assert(all.take(n as int) =~= all);
    order
}

// ---------------------------------------------------------------------------
// Messages
// ---------------------------------------------------------------------------
pub open spec fn first_issue(c: ColumnView) -> Seq<char> {
    "第一个字段 "@ + c.name + " 起始位置为 "@ + dec(c.start_pos) + "，应为 1"@
}

pub open spec fn overlap_issue(prev: ColumnView, cur: ColumnView) -> Seq<char> {
    "字段 "@ + cur.name + " 与前一字段 "@ + prev.name + " 存在重叠: 前一字段结束于 "@ + dec(
        prev.end_pos,
    ) + ", 当前字段起始于 "@ + dec(cur.start_pos)
}

pub open spec fn gap_issue(prev: ColumnView, cur: ColumnView) -> Seq<char> {
    "字段 "@ + cur.name + " 与前一字段 "@ + prev.name + " 之间存在间隙: 前一字段结束于 "@ + dec(
        prev.end_pos,
    ) + ", 当前字段起始于 "@ + dec(cur.start_pos)
}

pub open spec fn last_issue(last_end: nat, row_length: nat) -> Seq<char> {
    "最后一个字段结束位置为 "@ + dec(last_end) + ", 但 ROWLENGTH 为 "@ + dec(row_length)
}

/// The joints between neighbours among the first `n` sorted columns that do not fit.
pub open spec fn joint_issues(s: Seq<ColumnView>, n: int) -> Seq<Seq<char>>
    decreases n,
{
    if n <= 1 {
        seq![]
    } else {
        let prev = s[n - 2];
        let cur = s[n - 1];
        let rest = joint_issues(s, n - 1);
        if cur.start_pos == prev.end_pos + 1 {
            rest
        } else if cur.start_pos < prev.end_pos + 1 {
            rest.push(overlap_issue(prev, cur))
        } else {
            rest.push(gap_issue(prev, cur))
        }
    }
}

/// All layout problems of non-empty columns sorted by start, in the order reported.
pub open spec fn layout_issues(s: Seq<ColumnView>, row_length: nat) -> Seq<Seq<char>> {
    let head = if s[0].start_pos != 1 {
        seq![first_issue(s[0])]
    } else {
        seq![]
    };
    let tail = if s.last().end_pos != row_length {
        seq![last_issue(s.last().end_pos, row_length)]
    } else {
        seq![]
    };
    head + joint_issues(s, s.len() as int) + tail
}

pub open spec fn position_check_name(table: Seq<char>) -> Seq<char> {
    "["@ + table + "] 字段位置范围"@
}

/// The result of the layout check of `meta`.
pub open spec fn spec_check_column_positions(meta: FlgMetadata) -> (Seq<char>, bool, Seq<char>, Seq<char>) {
    let cols = meta@.columns;
    let name = position_check_name(meta@.table_name);
    if cols.len() == 0 {
        (name, false, "没有字段定义，无法检查位置范围"@, "error"@)
    } else {
        let issues = layout_issues(sort_by_start(cols), meta@.row_length);
        if issues.len() == 0 {
            (
                name,
                true,
                "字段位置范围连续且完整: 共 "@ + dec(cols.len()) + " 个字段, ROWLENGTH="@ + dec(
                    meta@.row_length,
                ),
                "info"@,
            )
        } else {
            (name, false, "字段位置范围异常: "@ + join(issues, "; "@), "error"@)
        }
    }
}

proof fn lemma_joints(s: Seq<ColumnView>, n: int)
    requires
        0 <= n <= s.len(),
    ensures
        joint_issues(s, n).len() == 0 <==> forall|i: int|
            0 < i < n ==> (#[trigger] s[i]).start_pos == s[i - 1].end_pos + 1,
        forall|i: int|
            0 < i < n && (#[trigger] s[i]).start_pos <= s[i - 1].end_pos ==> joint_issues(
                s,
                n,
            ).contains(overlap_issue(s[i - 1], s[i])),
        forall|i: int|
            0 < i < n && (#[trigger] s[i]).start_pos > s[i - 1].end_pos + 1 ==> joint_issues(
                s,
                n,
            ).contains(gap_issue(s[i - 1], s[i])),
    decreases n,
{
    if n > 1 {
        lemma_joints(s, n - 1);
        let rest = joint_issues(s, n - 1);
        let all = joint_issues(s, n);
        assert forall|x: Seq<char>| rest.contains(x) implies all.contains(x) by {
            let k = choose|k: int| 0 <= k < rest.len() && rest[k] == x;
            if all != rest {
                assert(all[k] == x);
            }
        }
        let prev = s[n - 2];
        let cur = s[n - 1];
        if cur.start_pos != prev.end_pos + 1 {
            assert(all.len() > 0);
            assert(all[all.len() - 1] == (if cur.start_pos < prev.end_pos + 1 {
                overlap_issue(prev, cur)
            } else {
                gap_issue(prev, cur)
            }));
        }
    }
}

/// The layout check passes exactly when there are columns and, taken by
/// start position, the first starts at byte 1, every column starts right
/// after the end of the one before it (no overlap, no gap), and the last
/// ends at ROWLENGTH. When it fails its severity is "error", and every
/// overlap and every gap between neighbours is named in its message.
pub proof fn law_layout_passes_iff_contiguous(meta: FlgMetadata)
    ensures
        ({
            let s = sort_by_start(meta@.columns);
            spec_check_column_positions(meta).1 <==> {
                &&& s.len() > 0
                &&& s[0].start_pos == 1
                &&& forall|i: int|
                    0 < i < s.len() ==> (#[trigger] s[i]).start_pos == s[i - 1].end_pos + 1
                &&& s.last().end_pos == meta@.row_length
            }
        }),
        !spec_check_column_positions(meta).1 ==> spec_check_column_positions(meta).3 == "error"@,
        ({
            let s = sort_by_start(meta@.columns);
            forall|i: int|
                0 < i < s.len() && (#[trigger] s[i]).start_pos <= s[i - 1].end_pos ==> {
                    &&& !spec_check_column_positions(meta).1
                    &&& spec_check_column_positions(meta).2 == "字段位置范围异常: "@ + join(
                        layout_issues(s, meta@.row_length),
                        "; "@,
                    )
                    &&& layout_issues(s, meta@.row_length).contains(overlap_issue(s[i - 1], s[i]))
                }
        }),
        ({
            let s = sort_by_start(meta@.columns);
            forall|i: int|
                0 < i < s.len() && (#[trigger] s[i]).start_pos > s[i - 1].end_pos + 1 ==> {
                    &&& !spec_check_column_positions(meta).1
                    &&& layout_issues(s, meta@.row_length).contains(gap_issue(s[i - 1], s[i]))
                }
        }),
{
    let cols = meta@.columns;
    let s = sort_by_start(cols);
    lemma_sort_len(cols);
    if s.len() > 0 {
        lemma_joints(s, s.len() as int);
        let rl = meta@.row_length;
        let head: Seq<Seq<char>> = if s[0].start_pos != 1 {
            seq![first_issue(s[0])]
        } else {
            seq![]
        };
        let tail: Seq<Seq<char>> = if s.last().end_pos != rl {
            seq![last_issue(s.last().end_pos, rl)]
        } else {
            seq![]
        };
        let j = joint_issues(s, s.len() as int);
        assert(layout_issues(s, rl) == head + j + tail);
        assert forall|x: Seq<char>| j.contains(x) implies layout_issues(s, rl).contains(x) by {
            let k = choose|k: int| 0 <= k < j.len() && j[k] == x;
            assert((head + j + tail)[head.len() + k] == x);
        }
        if s[0].start_pos != 1 {
            assert((head + j + tail)[0] == first_issue(s[0]));
        }
        if s.last().end_pos != rl {
            assert((head + j + tail)[(head.len() + j.len()) as int] == last_issue(s.last().end_pos, rl));
        }
    }
}

/// The fields of a check result, as a tuple of views.
pub open spec fn result_view(r: PreCheckResult) -> (Seq<char>, bool, Seq<char>, Seq<char>) {
    (r.check_name@, r.passed, r.message@, r.severity@)
}

/// Checks that the fields, sorted by start position, start at byte 1, each
/// start right after the end of the one before, and the last one ends at
/// ROWLENGTH.
pub fn check_column_positions(metadata: &FlgMetadata) -> (r: PreCheckResult)
    requires
        forall|i: int|
            0 <= i < metadata@.columns.len() - 1 ==> (#[trigger] sort_by_start(
                metadata@.columns,
            )[i]).end_pos < usize::MAX,
    ensures
        result_view(r) == spec_check_column_positions(*metadata),
{
    let mut check_name = String::from_str("[");
    check_name.append(metadata.table_name.as_str());
    check_name.append("] 字段位置范围");
    let ghost cols = metadata@.columns;
    if metadata.columns.len() == 0 {
        return PreCheckResult {
            check_name,
            passed: false,
            message: String::from_str("没有字段定义，无法检查位置范围"),
            severity: String::from_str("error"),
        };
    }
    let order = sorted_order(&metadata.columns);
    let ghost s = sort_by_start(cols);
    proof {
        lemma_sort_len(cols);
    }
    let n = order.len();
    assert(forall|k: int| 0 <= k < n ==> s[k] == metadata.columns@[order@[k] as int]@) by {
        assert forall|k: int| 0 <= k < n implies s[k] == metadata.columns@[order@[k] as int]@ by {
            assert(order@.map_values(|i: usize| metadata.columns@[i as int]@)[k] == s[k]);
        }
    }
    let mut issues: Vec<String> = Vec::new();
    let c0 = &metadata.columns[order[0]];
    let ghost head: Seq<Seq<char>> = if s[0].start_pos != 1 {
        seq![first_issue(s[0])]
    } else {
        seq![]
    };
    if c0.start_pos != 1 {
        let mut m = String::from_str("第一个字段 ");
        m.append(c0.name.as_str());
        m.append(" 起始位置为 ");
        push_uint(&mut m, c0.start_pos as u64);
        m.append("，应为 1");
        issues.push(m);
    }
    assert(issues@.map_values(|p: String| p@) =~= head + joint_issues(s, 1));
    let mut i: usize = 1;
    while i < n
        invariant
            n == order@.len(),
            n == s.len(),
            1 <= i <= n,
            forall|k: int| 0 <= k < n ==> (#[trigger] order@[k]) < metadata.columns@.len(),
            forall|k: int| 0 <= k < n ==> s[k] == metadata.columns@[#[trigger] order@[k] as int]@,
            forall|k: int| 0 <= k < n - 1 ==> (#[trigger] s[k]).end_pos < usize::MAX,
            issues@.map_values(|p: String| p@) == head + joint_issues(s, i as int),
        decreases n - i,
    {
        let prev = &metadata.columns[order[i - 1]];
        let cur = &metadata.columns[order[i]];
        let ghost pv = s[i - 1];
        let ghost cv = s[i as int];
        assert(pv == prev@);
        assert(cv == cur@);
        let prev_end = prev.end_pos;
        let curr_start = cur.start_pos;
        let expected_start = prev_end + 1;
        let ghost before = issues@;
        if curr_start != expected_start {
            let mut m = String::from_str("字段 ");
            m.append(cur.name.as_str());
            m.append(" 与前一字段 ");
            m.append(prev.name.as_str());
            if curr_start < expected_start {
                m.append(" 存在重叠: 前一字段结束于 ");
            } else {
                m.append(" 之间存在间隙: 前一字段结束于 ");
            }
            push_uint(&mut m, prev_end as u64);
            m.append(", 当前字段起始于 ");
            push_uint(&mut m, curr_start as u64);
            issues.push(m);
            assert(issues@.map_values(|p: String| p@) =~= before.map_values(|p: String| p@).push(
                m@,
            ));
        }
        i = i + 1;
    }
    let last = &metadata.columns[order[n - 1]];
    assert(last@ == s.last());
    if last.end_pos != metadata.row_length {
        let mut m = String::from_str("最后一个字段结束位置为 ");
        push_uint(&mut m, last.end_pos as u64);
        m.append(", 但 ROWLENGTH 为 ");
        push_uint(&mut m, metadata.row_length as u64);
        let ghost before = issues@;
        issues.push(m);
        assert(issues@.map_values(|p: String| p@) =~= before.map_values(|p: String| p@).push(m@));
    }
    assert(issues@.map_values(|p: String| p@) =~= layout_issues(s, metadata@.row_length));
    if issues.len() == 0 {
        let mut m = String::from_str("字段位置范围连续且完整: 共 ");
        push_uint(&mut m, metadata.columns.len() as u64);
        m.append(" 个字段, ROWLENGTH=");
        push_uint(&mut m, metadata.row_length as u64);
        PreCheckResult {
            check_name,
            passed: true,
            message: m,
            severity: String::from_str("info"),
        }
    } else {
        let mut m = String::from_str("字段位置范围异常: ");
        let joined = join_strings(&issues, "; ");
        m.append(joined.as_str());
        PreCheckResult {
            check_name,
            passed: false,
            message: m,
            severity: String::from_str("error"),
        }
    }
}

} // verus!
