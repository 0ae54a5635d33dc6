//! Ranking groups by total size and rendering them as a table.
use vstd::prelude::*;
use vstd::string::*;
use humansize::FileSize;
use crate::aggregate::{stats, ChkInfo, GroupStat};
use crate::table::{decimal, format_table, matrix_view, table_text, to_decimal};

verus! {

broadcast use vstd::seq_lib::group_to_multiset_ensures;

/// The text that humansize gives for `n` bytes in decimal units
/// (such as `"1 B"` or `"1.02 KB"`).
pub uninterp spec fn size_text(n: nat) -> Seq<char>;

/// Relies on humansize's `FileSize::file_size` for `u64` with
/// `file_size_opts::DECIMAL`: the text depends on the number alone, and for
/// an unsigned number the result is always `Ok`.
#[verifier::external_body]
pub(crate) fn human_size(n: u64) -> (r: String)
    ensures
        r@ == size_text(n as nat),
{
    n.file_size(humansize::file_size_opts::DECIMAL).unwrap()
}

/// Index of the first group of `s` whose total is at most `t`
/// (`s.len()` when there is none).
pub open spec fn first_not_greater(s: Seq<GroupStat>, t: nat) -> int
    decreases s.len(),
{
    if s.len() == 0 {
        0
    } else if s[0].total <= t {
        0
    } else {
        1 + first_not_greater(s.drop_first(), t)
    }
}

/// `x` placed before the first group whose total is not larger than its own.
pub open spec fn insert_desc(s: Seq<GroupStat>, x: GroupStat) -> Seq<GroupStat> {
    s.insert(first_not_greater(s, x.total), x)
}

/// The groups ordered by total size, largest first; groups of equal total
/// keep their relative order.
pub open spec fn ranked(s: Seq<GroupStat>) -> Seq<GroupStat>
    decreases s.len(),
{
    if s.len() == 0 {
        s
    } else {
        insert_desc(ranked(s.drop_first()), s[0])
    }
}

pub open spec fn sorted_desc(s: Seq<GroupStat>) -> bool {
    forall|i: int, j: int| 0 <= i < j < s.len() ==> s[i].total >= s[j].total
}

pub open spec fn header_cells() -> Seq<Seq<char>> {
    seq![
        seq!['N', 'a', 'm', 'e'],
        seq!['C', 'o', 'u', 'n', 't'],
        seq!['A', 'v', 'e', 'r', 'a', 'g', 'e'],
        seq!['T', 'o', 't', 'a', 'l'],
    ]
}

/// One table row: name, count, average size and total size.
pub open spec fn row_of(g: GroupStat) -> Seq<Seq<char>> {
    seq![g.name, decimal(g.count), size_text(g.total / g.count), size_text(g.total)]
}

pub open spec fn summary_matrix(g: Seq<GroupStat>) -> Seq<Seq<Seq<char>>> {
    seq![header_cells()] + g.map_values(|x: GroupStat| row_of(x))
}

/// The groups that are shown: the `limit` largest.
pub open spec fn shown(limit: nat, g: Seq<GroupStat>) -> Seq<GroupStat> {
    if limit <= g.len() {
        ranked(g).subrange(0, limit as int)
    } else {
        ranked(g)
    }
}

/// The summary table of `g` with at most `limit` rows; nothing at all when
/// there are no groups.
pub open spec fn summary_text(limit: nat, g: Seq<GroupStat>) -> Seq<char> {
    if g.len() == 0 {
        Seq::<char>::empty()
    } else {
        table_text(summary_matrix(shown(limit, g)))
    }
}

proof fn lemma_first_not_greater(s: Seq<GroupStat>, t: nat, p: int)
    requires
        0 <= p <= s.len(),
        forall|i: int| 0 <= i < p ==> s[i].total > t,
        p == s.len() || s[p].total <= t,
    ensures
        first_not_greater(s, t) == p,
    decreases s.len(),
{
    if s.len() > 0 && p > 0 {
        lemma_first_not_greater(s.drop_first(), t, p - 1);
    }
}

proof fn lemma_first_not_greater_bound(s: Seq<GroupStat>, t: nat)
    ensures
        0 <= first_not_greater(s, t) <= s.len(),
        forall|i: int| 0 <= i < first_not_greater(s, t) ==> s[i].total > t,
        first_not_greater(s, t) < s.len() ==> s[first_not_greater(s, t)].total <= t,
    decreases s.len(),
{
    if s.len() > 0 && s[0].total > t {
        lemma_first_not_greater_bound(s.drop_first(), t);
        let p = first_not_greater(s, t);
        assert forall|i: int| 0 <= i < p implies s[i].total > t by {
            if i > 0 {
                assert(s[i] == s.drop_first()[i - 1]);
            }
        }
    }
}

/// Ranking keeps the same groups (as a multiset) and puts them in
/// descending order of total size.
pub proof fn lemma_ranked(s: Seq<GroupStat>)
    ensures
        ranked(s).to_multiset() == s.to_multiset(),
        ranked(s).len() == s.len(),
        sorted_desc(ranked(s)),
    decreases s.len(),
{
    if s.len() > 0 {
        let rest = ranked(s.drop_first());
        lemma_ranked(s.drop_first());
        let x = s[0];
        let p = first_not_greater(rest, x.total);
        lemma_first_not_greater_bound(rest, x.total);
        assert(s.drop_first().insert(0, x) =~= s);
        let r = rest.insert(p, x);
        assert forall|i: int, j: int| 0 <= i < j < r.len() implies r[i].total >= r[j].total by {
            if j < p {
            } else if j == p {
            } else if i < p {
                assert(r[j] == rest[j - 1]);
            } else if i == p {
                assert(r[j] == rest[j - 1]);
                assert(rest[p].total >= rest[j - 1].total);
            } else {
                assert(r[j] == rest[j - 1]);
                assert(r[i] == rest[i - 1]);
            }
        }
    }
}

/// Each ranked group is one of the input's groups.
proof fn lemma_ranked_members(s: Seq<GroupStat>, i: int)
    requires
        0 <= i < s.len(),
    ensures
        s.contains(ranked(s)[i]),
{
    lemma_ranked(s);
    let x = ranked(s)[i];
    assert(ranked(s).contains(x));
    assert(ranked(s).to_multiset().count(x) > 0);
}

/// Two descending sequences of the same groups are equal, where groups of
/// equal total are equal.
proof fn lemma_sorted_same_groups(a: Seq<GroupStat>, b: Seq<GroupStat>)
    requires
        sorted_desc(a),
        sorted_desc(b),
        a.to_multiset() == b.to_multiset(),
        forall|i: int, j: int|
            0 <= i < a.len() && 0 <= j < a.len() && a[i].total == a[j].total ==> a[i] == a[j],
    ensures
        a == b,
    decreases a.len(),
{
    assert(a.len() == a.to_multiset().len());
    assert(b.len() == b.to_multiset().len());
    if a.len() == 0 {
        assert(a =~= b);
    } else {
        assert(a.contains(a[0]));
        assert(a.to_multiset().count(a[0]) > 0);
        assert(b.to_multiset().count(a[0]) > 0);
        let j = choose|j: int| 0 <= j < b.len() && b[j] == a[0];
        assert(b.contains(b[0]));
        assert(b.to_multiset().count(b[0]) > 0);
        assert(a.to_multiset().count(b[0]) > 0);
        let i = choose|i: int| 0 <= i < a.len() && a[i] == b[0];
        assert(b[0].total >= b[j].total);
        assert(a[0].total >= a[i].total);
        assert(a[0] == b[0]);
        let a1 = a.remove(0);
        let b1 = b.remove(0);
        assert(a1.to_multiset() == a.to_multiset().remove(a[0]));
        assert(b1.to_multiset() == b.to_multiset().remove(b[0]));
        assert forall|i: int, j: int|
            0 <= i < a1.len() && 0 <= j < a1.len() && a1[i].total == a1[j].total implies a1[i]
            == a1[j] by {
            assert(a1[i] == a[i + 1]);
            assert(a1[j] == a[j + 1]);
        }
        assert forall|i: int, j: int| 0 <= i < j < a1.len() implies a1[i].total >= a1[j].total by {
            assert(a1[i] == a[i + 1]);
            assert(a1[j] == a[j + 1]);
        }
        assert forall|i: int, j: int| 0 <= i < j < b1.len() implies b1[i].total >= b1[j].total by {
            assert(b1[i] == b[i + 1]);
            assert(b1[j] == b[j + 1]);
        }
        lemma_sorted_same_groups(a1, b1);
        assert(a =~= b1.insert(0, b[0]));
        assert(b =~= b1.insert(0, b[0]));
    }
}

/// The table depends on which groups there are, not on the order in which
/// they come: two sequences of the same groups (as a multiset) give the same
/// text for every limit, provided that groups of equal total size are equal
/// (between different groups of equal total, the input order decides).
pub proof fn lemma_summary_ignores_order(limit: nat, a: Seq<GroupStat>, b: Seq<GroupStat>)
    requires
        a.to_multiset() == b.to_multiset(),
        forall|i: int, j: int|
            0 <= i < a.len() && 0 <= j < a.len() && a[i].total == a[j].total ==> a[i] == a[j],
    ensures
        summary_text(limit, a) == summary_text(limit, b),
{
    lemma_ranked(a);
    lemma_ranked(b);
    assert(a.len() == a.to_multiset().len());
    assert(b.len() == b.to_multiset().len());
    let ra = ranked(a);
    assert forall|i: int, j: int|
        0 <= i < ra.len() && 0 <= j < ra.len() && ra[i].total == ra[j].total implies ra[i]
        == ra[j] by {
        lemma_ranked_members(a, i);
        lemma_ranked_members(a, j);
        let k = choose|k: int| 0 <= k < a.len() && a[k] == ra[i];
        let l = choose|l: int| 0 <= l < a.len() && a[l] == ra[j];
        assert(a[k].total == a[l].total);
    }
    lemma_sorted_same_groups(ra, ranked(b));
}

fn rank(groups: Vec<ChkInfo>) -> (r: Vec<ChkInfo>)
    ensures
        stats(r@) == ranked(stats(groups@)),
{
    let ghost all = stats(groups@);
    let ghost n = all.len();
    let mut rest = groups;
    let mut out: Vec<ChkInfo> = Vec::new();
    assert(all.subrange(n as int, n as int) =~= Seq::<GroupStat>::empty());
    assert(stats(rest@) =~= all.subrange(0, n as int));
    assert(stats(out@) =~= Seq::<GroupStat>::empty());
    while rest.len() > 0
        invariant
            rest@.len() <= n,
            n == all.len(),
            stats(rest@) == all.subrange(0, rest@.len() as int),
            stats(out@) == ranked(all.subrange(rest@.len() as int, n as int)),
        decreases rest.len(),
    {
        let ghost k = rest@.len() as int;
        let ghost before = stats(out@);
        let x = match rest.pop() {
            Some(x) => x,
            None => {
                return out;
            },
        };
        assert(stats(rest@) =~= all.subrange(0, k - 1));
        assert(x.stat() == all[k - 1]) by {
            assert(all.subrange(0, k)[k - 1] == all[k - 1]);
        }
        let mut p: usize = 0;
        while p < out.len() && out[p].total_size > x.total_size
            invariant
                p <= out@.len(),
                before == stats(out@),
                forall|i: int| 0 <= i < p ==> out@[i].total_size > x.total_size,
            decreases out.len() - p,
        {
            p = p + 1;
        }
        proof {
            lemma_first_not_greater(before, x.total_size as nat, p as int);
        }
        let ghost xs = x.stat();
        out.insert(p, x);
        proof {
            let tail = all.subrange(k - 1, n as int);
            assert(tail.drop_first() =~= all.subrange(k, n as int));
            assert(tail[0] == xs);
            assert(stats(out@) =~= before.insert(p as int, xs));
        }
    }
    assert(all.subrange(0, n as int) =~= all);
    out
}

fn header_row() -> (r: Vec<String>)
    ensures
        r@.map_values(|c: String| c@) == header_cells(),
{
    let mut r: Vec<String> = Vec::new();
    proof {
        reveal_strlit("Name");
        reveal_strlit("Count");
        reveal_strlit("Average");
        reveal_strlit("Total");
    }
    r.push(String::from_str("Name"));
    r.push(String::from_str("Count"));
    r.push(String::from_str("Average"));
    r.push(String::from_str("Total"));
    assert(r@.map_values(|c: String| c@)[0] =~= header_cells()[0]);
    assert(r@.map_values(|c: String| c@)[1] =~= header_cells()[1]);
    assert(r@.map_values(|c: String| c@)[2] =~= header_cells()[2]);
    assert(r@.map_values(|c: String| c@)[3] =~= header_cells()[3]);
    assert(r@.map_values(|c: String| c@) =~= header_cells());
    r
}

/// The summary table of the groups: ranked by total size, largest first, at
/// most `limit` rows under a header; the empty string when there are no groups.
pub fn chkout_list_to_string(limit: u32, collections_vec: Vec<ChkInfo>) -> (r: String)
    requires
        forall|i: int| 0 <= i < collections_vec@.len() ==> #[trigger] collections_vec@[i].counter >= 1,
    ensures
        r@ == summary_text(limit as nat, stats(collections_vec@)),
{
    let ghost g = stats(collections_vec@);
    if collections_vec.len() == 0 {
        return String::new();
    }
    let mut sorted = rank(collections_vec);
    proof {
        lemma_ranked(g);
    }
    sorted.truncate(limit as usize);
    let ghost rows = shown(limit as nat, g);
    assert(stats(sorted@) =~= rows);
    let mut table_matrix: Vec<Vec<String>> = Vec::new();
    table_matrix.push(header_row());
    assert(matrix_view(table_matrix@) =~= summary_matrix(rows.subrange(0, 0)));
    let mut i: usize = 0;
    while i < sorted.len()
        invariant
            i <= sorted@.len(),
            stats(sorted@) == rows,
            rows == shown(limit as nat, g),
            sorted@.len() <= g.len(),
            ranked(g).len() == g.len(),
            forall|j: int| 0 <= j < g.len() ==> #[trigger] g[j].count >= 1,
            matrix_view(table_matrix@) == summary_matrix(rows.subrange(0, i as int)),
        decreases sorted.len() - i,
    {
        let c = &sorted[i];
        proof {
            assert(rows.len() == sorted@.len());
            if limit as nat <= g.len() {
                assert(rows[i as int] == ranked(g).subrange(0, limit as int)[i as int]);
            }
            assert(rows[i as int] == ranked(g)[i as int]);
            lemma_ranked_members(g, i as int);
            let k = choose|k: int| 0 <= k < g.len() && g[k] == ranked(g)[i as int];
            assert(g[k].count >= 1);
            assert(rows[i as int] == c.stat());
        }
        let mut row: Vec<String> = Vec::new();
        row.push(c.name.clone());
        row.push(to_decimal(c.counter as u64));
        row.push(human_size(c.total_size / (c.counter as u64)));
        row.push(human_size(c.total_size));
        let ghost before = matrix_view(table_matrix@);
        table_matrix.push(row);
        proof {
            let rv = row@.map_values(|s: String| s@);
            assert(rv =~= row_of(c.stat()));
            assert(rows.subrange(0, i + 1) =~= rows.subrange(0, i as int).push(c.stat()));
            assert(matrix_view(table_matrix@) =~= before.push(rv));
            assert(summary_matrix(rows.subrange(0, i + 1)) =~= summary_matrix(
                rows.subrange(0, i as int),
            ).push(row_of(c.stat())));
        }
        i = i + 1;
    }
    assert(rows.subrange(0, sorted@.len() as int) =~= rows);
    format_table(&table_matrix)
}

} // verus!
