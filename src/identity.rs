//! The logical project name of a checkout path
//! (`.../<project>-<suffix>/<revision>`).
use vstd::prelude::*;

verus! {

/// Why a checkout path does not name a project.
#[derive(Debug, Clone, Copy, PartialEq, Eq, Structural)]
pub enum PathError {
    /// Fewer than two segments (`.` segments not counted), or nothing left before the last hyphen of the
    /// suffix-bearing segment (no hyphen, or only one at its start).
    MalformedPath,
}

/// Start of the segment that ends at `end`: the index just after the last
/// `'/'` before `end`, or 0.
pub open spec fn seg_start(p: Seq<char>, end: int) -> int
    decreases end,
{
    if end <= 0 {
        0
    } else if p[end - 1] == '/' {
        end
    } else {
        seg_start(p, end - 1)
    }
}

/// Whether `p[end - 1]` is a segment that is exactly `.`.
pub open spec fn dot_segment_at(p: Seq<char>, end: int) -> bool {
    &&& 0 < end <= p.len()
    &&& p[end - 1] == '.'
    &&& (end == 1 || p[end - 2] == '/')
}

/// `end` moved back over the `'/'` characters and the `.` segments directly
/// before it.
pub open spec fn skip_separators(p: Seq<char>, end: int) -> int
    decreases end,
{
    if end <= 0 {
        0
    } else if p[end - 1] == '/' || dot_segment_at(p, end) {
        skip_separators(p, end - 1)
    } else {
        end
    }
}

/// Index of the last `'-'` in `p[lo..end]`, or -1 when there is none.
pub open spec fn last_hyphen(p: Seq<char>, lo: int, end: int) -> int
    decreases end - lo,
{
    if end <= lo {
        -1
    } else if p[end - 1] == '-' {
        end - 1
    } else {
        last_hyphen(p, lo, end - 1)
    }
}

/// The project named by a checkout path: segments are the non-empty runs of
/// characters between `'/'`, where a segment that is exactly `.` does not
/// count (it names no directory, as with `std::path::Path`'s components); the
/// last segment (the revision) is dropped, and the
/// one before it loses its last hyphen and what follows, which must leave a
/// non-empty name.
pub open spec fn identity_of(p: Seq<char>) -> Option<Seq<char>> {
    let e1 = skip_separators(p, p.len() as int);
    let b1 = seg_start(p, e1);
    let e2 = skip_separators(p, b1);
    let b2 = seg_start(p, e2);
    let h = last_hyphen(p, b2, e2);
    if e1 == 0 || e2 == 0 || h <= b2 {
        None
    } else {
        Some(p.subrange(b2, h))
    }
}

fn find_seg_start(p: &str, end: usize) -> (r: usize)
    requires
        end <= p@.len(),
    ensures
        r == seg_start(p@, end as int),
        r <= end,
{
    let mut i: usize = end;
    while i > 0
        invariant
            i <= end <= p@.len(),
            seg_start(p@, i as int) == seg_start(p@, end as int),
        decreases i,
    {
        if p.get_char(i - 1) == '/' {
            return i;
        }
        i = i - 1;
    }
    0
}

fn find_skip_separators(p: &str, end: usize) -> (r: usize)
    requires
        end <= p@.len(),
    ensures
        r == skip_separators(p@, end as int),
        r <= end,
{
    let mut i: usize = end;
    while i > 0
        invariant
            i <= end <= p@.len(),
            skip_separators(p@, i as int) == skip_separators(p@, end as int),
        decreases i,
    {
        let c = p.get_char(i - 1);
        if c != '/' {
            if c != '.' {
                return i;
            }
            if i > 1 && p.get_char(i - 2) != '/' {
                return i;
            }
        }
        i = i - 1;
    }
    0
}

/// `Some(h)` for `last_hyphen(p, lo, end) == h >= 0`, else `None`.
fn find_last_hyphen(p: &str, lo: usize, end: usize) -> (r: Option<usize>)
    requires
        lo <= end <= p@.len(),
    ensures
        match r {
            Some(h) => last_hyphen(p@, lo as int, end as int) == h as int && lo <= h < end,
            None => last_hyphen(p@, lo as int, end as int) < 0,
        },
{
    let mut i: usize = end;
    while i > lo
        invariant
            lo <= i <= end <= p@.len(),
            last_hyphen(p@, lo as int, i as int) == last_hyphen(p@, lo as int, end as int),
        decreases i,
    {
        if p.get_char(i - 1) == '-' {
            return Some(i - 1);
        }
        i = i - 1;
    }
    None
}

/// Inside a stretch without `'/'`, the segment start does not move.
proof fn lemma_seg_start_through(p: Seq<char>, lo: int, hi: int)
    requires
        0 <= lo <= hi <= p.len(),
        forall|k: int| lo <= k < hi ==> p[k] != '/',
    ensures
        seg_start(p, hi) == seg_start(p, lo),
    decreases hi - lo,
{
    if hi > lo {
        lemma_seg_start_through(p, lo, hi - 1);
    }
}

/// The segment start below `j` depends only on the first `j` characters.
proof fn lemma_seg_start_prefix(p: Seq<char>, x: Seq<char>, j: int)
    requires
        0 <= j <= x.len() <= p.len(),
        p.subrange(0, x.len() as int) == x,
    ensures
        seg_start(p, j) == seg_start(x, j),
    decreases j,
{
    if j > 0 {
        assert(p[j - 1] == p.subrange(0, x.len() as int)[j - 1]);
        lemma_seg_start_prefix(p, x, j - 1);
    }
}

/// A segment start before `j` lies at most at `j`.
proof fn lemma_seg_start_bound(p: Seq<char>, j: int)
    requires
        0 <= j <= p.len(),
    ensures
        0 <= seg_start(p, j) <= j,
    decreases j,
{
    if j > 0 {
        lemma_seg_start_bound(p, j - 1);
    }
}

/// Inside a stretch without `'-'`, the search for the last hyphen moves on.
proof fn lemma_last_hyphen_through(p: Seq<char>, b: int, lo: int, hi: int)
    requires
        b <= lo <= hi <= p.len(),
        forall|k: int| lo <= k < hi ==> p[k] != '-',
    ensures
        last_hyphen(p, b, hi) == last_hyphen(p, b, lo),
    decreases hi - lo,
{
    if hi > lo {
        lemma_last_hyphen_through(p, b, lo, hi - 1);
    }
}

/// The name of `x + suffix + "/" + revision`, where `x` ends in the hyphen
/// that precedes the unique suffix, is read from `x` alone.
proof fn lemma_identity_of_checkout(x: Seq<char>, suffix: Seq<char>, rev: Seq<char>)
    requires
        x.len() > 0,
        x.last() == '-',
        forall|k: int| 0 <= k < suffix.len() ==> suffix[k] != '/' && suffix[k] != '-',
        rev.len() > 0,
        rev != seq!['.'],
        forall|k: int| 0 <= k < rev.len() ==> rev[k] != '/',
    ensures
        identity_of(x + suffix + seq!['/'] + rev) == (if seg_start(x, x.len() as int) < x.len()
            - 1 {
            Some(x.subrange(seg_start(x, x.len() as int), x.len() - 1))
        } else {
            None
        }),
{
    let p = x + suffix + seq!['/'] + rev;
    let n = p.len() as int;
    let a = x.len() as int;
    let m = a + suffix.len();
    assert(p[n - 1] == rev[rev.len() - 1]);
    if rev.len() > 1 {
        assert(p[n - 2] == rev[rev.len() - 2]);
    } else if rev[0] == '.' {
        assert(rev =~= seq!['.']);
    }
    assert(skip_separators(p, n) == n);
    assert forall|k: int| m + 1 <= k < n implies p[k] != '/' by {
        assert(p[k] == rev[k - m - 1]);
    }
    lemma_seg_start_through(p, m + 1, n);
    assert(p[m] == '/');
    assert(seg_start(p, m + 1) == m + 1);
    if suffix.len() > 1 {
        assert(p[m - 1] == suffix[suffix.len() - 1]);
        assert(p[m - 2] == suffix[suffix.len() - 2]);
    } else if suffix.len() == 1 {
        assert(p[m - 1] == suffix[0]);
        assert(p[m - 2] == x[a - 1]);
    } else {
        assert(p[m - 1] == x[a - 1]);
    }
    assert(skip_separators(p, m) == m);
    assert(skip_separators(p, m + 1) == m);
    assert forall|k: int| a <= k < m implies p[k] != '/' && p[k] != '-' by {
        assert(p[k] == suffix[k - a]);
    }
    lemma_seg_start_through(p, a, m);
    assert(p.subrange(0, a) =~= x);
    lemma_seg_start_prefix(p, x, a);
    let b2 = seg_start(x, a);
    assert(p[a - 1] == x[a - 1]);
    assert(seg_start(x, a) == seg_start(x, a - 1));
    lemma_seg_start_bound(x, a - 1);
    lemma_last_hyphen_through(p, b2, a, m);
    assert(last_hyphen(p, b2, a) == a - 1);
    assert(p.subrange(b2, a - 1) =~= x.subrange(b2, a - 1));
}

/// Two checkouts of one project name the same project: paths that differ
/// only in the unique suffix after the segment's last hyphen and in the
/// revision segment give the same name.
pub proof fn lemma_identity_ignores_suffix(
    stem: Seq<char>,
    suffix1: Seq<char>,
    rev1: Seq<char>,
    suffix2: Seq<char>,
    rev2: Seq<char>,
)
    requires
        forall|k: int| 0 <= k < suffix1.len() ==> suffix1[k] != '/' && suffix1[k] != '-',
        forall|k: int| 0 <= k < suffix2.len() ==> suffix2[k] != '/' && suffix2[k] != '-',
        rev1.len() > 0,
        rev2.len() > 0,
        rev1 != seq!['.'],
        rev2 != seq!['.'],
        forall|k: int| 0 <= k < rev1.len() ==> rev1[k] != '/',
        forall|k: int| 0 <= k < rev2.len() ==> rev2[k] != '/',
    ensures
        identity_of(stem.push('-') + suffix1 + seq!['/'] + rev1) == identity_of(
            stem.push('-') + suffix2 + seq!['/'] + rev2,
        ),
        stem.len() > 0 && stem.last() != '/' ==> identity_of(
            stem.push('-') + suffix1 + seq!['/'] + rev1,
        ) is Some,
{
    let x = stem.push('-');
    lemma_identity_of_checkout(x, suffix1, rev1);
    if stem.len() > 0 && stem.last() != '/' {
        assert(x[x.len() - 2] == stem.last());
        assert(seg_start(x, x.len() - 1) == seg_start(x, x.len() - 2));
        lemma_seg_start_bound(x, x.len() - 2);
    }
    lemma_identity_of_checkout(stem.push('-'), suffix2, rev2);
}

/// The project name of a checkout path such as
/// `/home/u/.cargo/git/checkouts/cargo-cache-16826c8e13331adc/0f9966c`
/// (here `cargo-cache`).
pub fn name_from_pb(path: &str) -> (r: Result<String, PathError>)
    ensures
        match r {
            Ok(name) => identity_of(path@) == Some(name@),
            Err(e) => identity_of(path@) is None && e == PathError::MalformedPath,
        },
{
    let n = path.unicode_len();
    let e1 = find_skip_separators(path, n);
    let b1 = find_seg_start(path, e1);
    let e2 = find_skip_separators(path, b1);
    let b2 = find_seg_start(path, e2);
    if e1 == 0 || e2 == 0 {
        return Err(PathError::MalformedPath);
    }
    match find_last_hyphen(path, b2, e2) {
        Some(h) if h > b2 => Ok(path.substring_char(b2, h).to_owned()),
        _ => Err(PathError::MalformedPath),
    }
}

} // verus!
