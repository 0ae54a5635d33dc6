//! Folding consecutive descriptors of one project into a group.
use vstd::prelude::*;
use crate::identity::{identity_of, name_from_pb, PathError};

verus! {

/// One measured checkout.
#[derive(Debug)]
pub struct FileDesc {
    pub path: String,
    pub name: String,
    pub size: u64,
}

/// Statistics of one run of descriptors that share a name.
#[derive(Debug)]
pub struct ChkInfo {
    pub name: String,
    pub counter: u32,
    pub total_size: u64,
}

/// What a group states: its name, how many checkouts, and their total size.
pub struct GroupStat {
    pub name: Seq<char>,
    pub count: nat,
    pub total: nat,
}

impl ChkInfo {
    pub open spec fn stat(&self) -> GroupStat {
        GroupStat { name: self.name@, count: self.counter as nat, total: self.total_size as nat }
    }

    pub fn new(name: String, counter: u32, total_size: u64) -> (r: ChkInfo)
        ensures
            r.name == name,
            r.counter == counter,
            r.total_size == total_size,
    {
        ChkInfo { name, counter, total_size }
    }
}

impl FileDesc {
    /// The descriptor of the checkout at `path`, measured at `size` bytes.
    pub fn new_from_git_checkouts(path: String, size: u64) -> (r: Result<FileDesc, PathError>)
        ensures
            match r {
                Ok(d) => identity_of(path@) == Some(d.name@) && d.path == path && d.size == size,
                Err(e) => identity_of(path@) is None && e == PathError::MalformedPath,
            },
    {
        match name_from_pb(path.as_str()) {
            Ok(name) => Ok(FileDesc { path, name, size }),
            Err(e) => Err(e),
        }
    }
}

pub open spec fn stats(s: Seq<ChkInfo>) -> Seq<GroupStat> {
    s.map_values(|c: ChkInfo| c.stat())
}

/// The groups of a descriptor sequence: each descriptor extends the last
/// group when it carries that group's name, and opens a new group otherwise.
pub open spec fn runs(d: Seq<FileDesc>) -> Seq<GroupStat>
    decreases d.len(),
{
    if d.len() == 0 {
        seq![]
    } else {
        let prev = runs(d.drop_last());
        let x = d.last();
        if prev.len() > 0 && prev.last().name == x.name@ {
            prev.update(
                prev.len() - 1,
                GroupStat {
                    name: x.name@,
                    count: prev.last().count + 1,
                    total: prev.last().total + x.size as nat,
                },
            )
        } else {
            prev.push(GroupStat { name: x.name@, count: 1, total: x.size as nat })
        }
    }
}

pub open spec fn sum_sizes(d: Seq<FileDesc>) -> nat
    decreases d.len(),
{
    if d.len() == 0 {
        0
    } else {
        sum_sizes(d.drop_last()) + d.last().size as nat
    }
}

pub open spec fn sum_counts(g: Seq<GroupStat>) -> nat
    decreases g.len(),
{
    if g.len() == 0 {
        0
    } else {
        sum_counts(g.drop_last()) + g.last().count
    }
}

pub open spec fn sum_totals(g: Seq<GroupStat>) -> nat
    decreases g.len(),
{
    if g.len() == 0 {
        0
    } else {
        sum_totals(g.drop_last()) + g.last().total
    }
}

/// Every group holds at least one checkout.
pub proof fn lemma_runs_nonempty_groups(d: Seq<FileDesc>)
    ensures
        forall|i: int| 0 <= i < runs(d).len() ==> #[trigger] runs(d)[i].count >= 1,
        d.len() > 0 <==> runs(d).len() > 0,
    decreases d.len(),
{
    if d.len() > 0 {
        lemma_runs_nonempty_groups(d.drop_last());
    }
}

/// Every descriptor is counted in exactly one group: the counts of the
/// groups add up to the number of descriptors.
pub proof fn lemma_counts_cover_input(d: Seq<FileDesc>)
    ensures
        sum_counts(runs(d)) == d.len(),
    decreases d.len(),
{
    if d.len() > 0 {
        lemma_counts_cover_input(d.drop_last());
        let prev = runs(d.drop_last());
        if prev.len() > 0 && prev.last().name == d.last().name@ {
            assert(runs(d).drop_last() =~= prev.drop_last());
        } else {
            assert(runs(d).drop_last() =~= prev);
        }
    }
}

/// No byte is lost or counted twice: the group totals add up to the sum of
/// the descriptor sizes.
pub proof fn lemma_totals_cover_input(d: Seq<FileDesc>)
    ensures
        sum_totals(runs(d)) == sum_sizes(d),
    decreases d.len(),
{
    if d.len() > 0 {
        lemma_totals_cover_input(d.drop_last());
        let prev = runs(d.drop_last());
        if prev.len() > 0 && prev.last().name == d.last().name@ {
            assert(runs(d).drop_last() =~= prev.drop_last());
        } else {
            assert(runs(d).drop_last() =~= prev);
        }
    }
}

/// Every group fits its fields: at most `u32::MAX` checkouts and at most
/// `u64::MAX` bytes.
pub open spec fn groups_fit(g: Seq<GroupStat>) -> bool {
    forall|k: int| 0 <= k < g.len() ==> #[trigger] g[k].count <= u32::MAX && g[k].total <= u64::MAX
}

/// `p` is what `q` was earlier in the fold: the same groups but for the last
/// of `p`, which has grown since.
pub open spec fn grows_into(p: Seq<GroupStat>, q: Seq<GroupStat>) -> bool {
    &&& p.len() <= q.len()
    &&& forall|k: int| 0 <= k < p.len() - 1 ==> #[trigger] p[k] == q[k]
    &&& p.len() > 0 ==> p.last().count <= q[p.len() - 1].count && p.last().total <= q[
        p.len() - 1
    ].total
}

proof fn lemma_grows_into_trans(p: Seq<GroupStat>, q: Seq<GroupStat>, r: Seq<GroupStat>)
    requires
        grows_into(p, q),
        grows_into(q, r),
    ensures
        grows_into(p, r),
{
    if p.len() > 0 && p.len() < q.len() {
        assert(q[p.len() - 1] == r[p.len() - 1]);
    }
}

/// The groups of a prefix grow into the groups of the whole sequence.
proof fn lemma_runs_prefix(d: Seq<FileDesc>, j: int)
    requires
        0 <= j <= d.len(),
    ensures
        grows_into(runs(d.subrange(0, j)), runs(d)),
    decreases d.len() - j,
{
    if j < d.len() {
        lemma_runs_prefix(d, j + 1);
        let next = d.subrange(0, j + 1);
        assert(next.drop_last() =~= d.subrange(0, j));
        lemma_grows_into_trans(runs(d.subrange(0, j)), runs(next), runs(d));
    } else {
        assert(d.subrange(0, j) =~= d);
    }
}

/// Whether every group of `file_descs` fits its fields, so that
/// `stats_from_file_desc_list` may be called on it.
pub fn runs_fit(file_descs: &Vec<FileDesc>) -> (r: bool)
    ensures
        r == groups_fit(runs(file_descs@)),
{
    let ghost d = file_descs@;
    let n = file_descs.len();
    if n == 0 {
        return true;
    }
    let mut name: &String = &file_descs[0].name;
    let mut counter: u64 = 1;
    let mut total_size: u64 = file_descs[0].size;
    assert(d.subrange(0, 1).drop_last() =~= Seq::<FileDesc>::empty());
    assert(runs(Seq::<FileDesc>::empty()) == Seq::<GroupStat>::empty());
    assert(d.subrange(0, 1).last() == d[0]);
    let mut i: usize = 1;
    while i < n
        invariant
            file_descs@ == d,
            n == d.len(),
            1 <= i <= n,
            groups_fit(runs(d.subrange(0, i as int))),
            runs(d.subrange(0, i as int)).len() > 0,
            runs(d.subrange(0, i as int)).last() == (GroupStat {
                name: name@,
                count: counter as nat,
                total: total_size as nat,
            }),
        decreases n - i,
    {
        let ghost prefix = d.subrange(0, i as int);
        let ghost next = d.subrange(0, i + 1);
        assert(next.drop_last() =~= prefix);
        let current = &file_descs[i];
        if current.name == *name {
            if counter >= 0xffff_ffff || total_size > u64::MAX - current.size {
                proof {
                    lemma_runs_prefix(d, i + 1);
                    let q = runs(next);
                    assert(q.last().count > u32::MAX || q.last().total > u64::MAX);
                    assert(q[q.len() - 1] == q.last());
                    assert(!groups_fit(runs(d))) by {
                        let k = q.len() - 1;
                        assert(runs(d)[k].count >= q[k].count);
                    }
                }
                return false;
            }
            counter = counter + 1;
            total_size = total_size + current.size;
        } else {
            name = &current.name;
            counter = 1;
            total_size = current.size;
        }
        i = i + 1;
        proof {
            let q = runs(next);
            let p = runs(prefix);
            assert(q.last() == GroupStat {
                name: name@,
                count: counter as nat,
                total: total_size as nat,
            });
            assert forall|k: int| 0 <= k < q.len() implies #[trigger] q[k].count <= u32::MAX
                && q[k].total <= u64::MAX by {
                if k == q.len() - 1 {
                    assert(q[k] == q.last());
                } else {
                    assert(q[k] == p[k]);
                    assert(p[k].count <= u32::MAX && p[k].total <= u64::MAX);
                }
            }
        }
    }
    assert(d.subrange(0, n as int) =~= d);
    true
}

/// The groups of `file_descs`, one per run of equal names, in the order in
/// which the runs appear.
pub fn stats_from_file_desc_list(file_descs: Vec<FileDesc>) -> (out: Vec<ChkInfo>)
    requires
        groups_fit(runs(file_descs@)),
    ensures
        stats(out@) == runs(file_descs@),
{
    let ghost d = file_descs@;
    let mut out: Vec<ChkInfo> = Vec::new();
    let n = file_descs.len();
    if n == 0 {
        assert(stats(out@) =~= runs(d));
        return out;
    }
    let mut name: String = file_descs[0].name.clone();
    let mut counter: u32 = 1;
    let mut total_size: u64 = file_descs[0].size;
    assert(d.subrange(0, 1).drop_last() =~= Seq::<FileDesc>::empty());
    assert(runs(Seq::<FileDesc>::empty()) == Seq::<GroupStat>::empty());
    assert(d.subrange(0, 1).last() == d[0]);
    assert(stats(out@).push(
        GroupStat { name: name@, count: counter as nat, total: total_size as nat },
    ) =~= runs(d.subrange(0, 1)));
    let mut i: usize = 1;
    while i < n
        invariant
            file_descs@ == d,
            n == d.len(),
            1 <= i <= n,
            groups_fit(runs(d)),
            stats(out@).push(
                GroupStat { name: name@, count: counter as nat, total: total_size as nat },
            ) == runs(d.subrange(0, i as int)),
        decreases n - i,
    {
        let ghost prefix = d.subrange(0, i as int);
        let ghost next = d.subrange(0, i + 1);
        assert(next.drop_last() =~= prefix);
        let ghost pending = GroupStat {
            name: name@,
            count: counter as nat,
            total: total_size as nat,
        };
        proof {
            lemma_runs_prefix(d, i + 1);
            let q = runs(next);
            assert(q[q.len() - 1].count <= u32::MAX && q[q.len() - 1].total <= u64::MAX);
            assert(runs(prefix).drop_last() =~= stats(out@));
        }
        let current = &file_descs[i];
        if current.name == name {
            proof {
                assert(runs(next).drop_last() =~= stats(out@));
                assert(runs(next).last().total == total_size + current.size);
            }
            counter = counter + 1;
            total_size = total_size + current.size;
        } else {
            let ghost old_out = stats(out@);
            out.push(ChkInfo::new(name, counter, total_size));
            assert(stats(out@) =~= old_out.push(pending));
            name = current.name.clone();
            counter = 1;
            total_size = current.size;
        }
        i = i + 1;
        proof {
            let g = GroupStat { name: name@, count: counter as nat, total: total_size as nat };
            assert(stats(out@).push(g) =~= runs(next));
        }
    }
    out.push(ChkInfo::new(name, counter, total_size));
    assert(d.subrange(0, n as int) =~= d);
    assert(stats(out@) =~= runs(d));
    out
}

} // verus!
