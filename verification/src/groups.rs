//! Groups of processes: apps grouped by name, processes grouped by user.
use crate::keys::{key_views, lemma_text_key_injective, push_text_key, text_key};
use crate::order::{in_order, key_before, lemma_key_order};
use crate::model::{distinct_indices, idx_sum, lemma_group_sum_bounded, lemma_prefix_sum_le, totals_fit, Measure, ProcessInfo};
use crate::tabs::SortKey;
use crate::text::{lowercase, to_lower};
use crate::views::{reorder, reorder_exec};
use vstd::prelude::*;
use vstd::string::StringExecFns;

verus! {

/// What processes are grouped by.
#[derive(Clone, Copy, PartialEq, Eq, Structural, Debug)]
pub enum GroupBy {
    /// The process name.
    Name,
    /// The owning user ("Unknown" when there is none).
    User,
}

pub open spec fn user_or_unknown(u: Option<String>) -> Seq<char> {
    match u {
        Some(n) => n@,
        None => "Unknown"@,
    }
}

/// The name of the group a process belongs to.
pub open spec fn group_name(p: ProcessInfo, by: GroupBy) -> Seq<char> {
    match by {
        GroupBy::Name => p.name@,
        GroupBy::User => user_or_unknown(p.user_name),
    }
}

/// A group: its name and its processes (indices into the process list).
pub struct GroupSpec {
    pub name: Seq<char>,
    pub members: Seq<usize>,
}

/// A group of processes with its totals.
pub struct Group {
    pub name: String,
    /// The member processes, by ascending PID.
    pub instances: Vec<usize>,
    pub cpu: u64,
    pub memory: u64,
    pub disk: u64,
    /// The PID of the first member (0 for an empty group).
    pub min_pid: u32,
}

impl vstd::view::View for Group {
    type V = GroupSpec;

    open spec fn view(&self) -> GroupSpec {
        GroupSpec { name: self.name@, members: self.instances@ }
    }
}

/// The PID of the first member, or 0.
pub open spec fn first_pid(ps: Seq<ProcessInfo>, members: Seq<usize>) -> u32 {
    if members.len() > 0 {
        ps[members[0] as int].pid
    } else {
        0
    }
}

impl Group {
    /// The cached totals agree with the members.
    pub open spec fn totals_ok(&self, ps: Seq<ProcessInfo>) -> bool {
        &&& distinct_indices(self.instances@, ps.len())
        &&& self.cpu == idx_sum(ps, self.instances@, Measure::Cpu)
        &&& self.memory == idx_sum(ps, self.instances@, Measure::Memory)
        &&& self.disk == idx_sum(ps, self.instances@, Measure::Disk)
        &&& self.min_pid == first_pid(ps, self.instances@)
    }
}

/// The indices ordered by ascending PID, stably.
pub open spec fn pid_sorted(ps: Seq<ProcessInfo>, idx: Seq<usize>) -> Seq<usize> {
    reorder(idx, idx.map_values(|i: usize| seq![ps[i as int].pid as u64]), false)
}

fn sum_measure(ps: &Vec<ProcessInfo>, idx: &Vec<usize>, m: Measure) -> (total: u64)
    requires
        distinct_indices(idx@, ps@.len()),
        totals_fit(ps@),
    ensures
        total == idx_sum(ps@, idx@, m),
{
    let mut total: u64 = 0;
    let mut k: usize = 0;
    while k < idx.len()
        invariant
            k <= idx.len(),
            distinct_indices(idx@, ps@.len()),
            totals_fit(ps@),
            total == idx_sum(ps@, idx@.take(k as int), m),
        decreases idx.len() - k,
    {
        proof {
            assert(idx@.take(k + 1).drop_last() =~= idx@.take(k as int));
            lemma_prefix_sum_le(ps@, idx@, k + 1, m);
            assert(ps@.len() == ps.len());
            lemma_group_sum_bounded(ps@, idx@, m);
            assert(idx_sum(ps@, crate::model::all_indices(ps.len() as nat), m) <= u64::MAX);
        }
        let p = &ps[idx[k]];
        let v = match m {
            Measure::Cpu => p.cpu_units,
            Measure::Memory => p.memory,
            Measure::Disk => p.disk_bytes_per_sec,
        };
        total = total + v;
        k = k + 1;
    }
    proof {
        assert(idx@.take(k as int) =~= idx@);
    }
    total
}

fn pid_sorted_exec(ps: &Vec<ProcessInfo>, idx: &Vec<usize>) -> (r: Vec<usize>)
    requires
        distinct_indices(idx@, ps@.len()),
    ensures
        r@ == pid_sorted(ps@, idx@),
        distinct_indices(r@, ps@.len()),
        r.len() == idx.len(),
{
    let mut keys: Vec<Vec<u64>> = Vec::new();
    let mut k: usize = 0;
    while k < idx.len()
        invariant
            k <= idx.len(),
            distinct_indices(idx@, ps@.len()),
            keys.len() == k,
            forall|a: int| 0 <= a < k ==> #[trigger] keys@[a]@ == seq![ps@[idx@[a] as int].pid as u64],
        decreases idx.len() - k,
    {
        let mut kk: Vec<u64> = Vec::new();
        kk.push(ps[idx[k]].pid as u64);
        proof {
            assert(kk@ =~= seq![ps@[idx@[k as int] as int].pid as u64]);
        }
        keys.push(kk);
        k = k + 1;
    }
    proof {
        assert(key_views(keys@) =~= idx@.map_values(|i: usize| seq![ps@[i as int].pid as u64]));
    }
    let r = reorder_exec(idx, &keys, false);
    proof {
        assert forall|a: int| 0 <= a < r.len() implies #[trigger] r@[a] < ps.len() by {
            assert(idx@.contains(r@[a]));
        }
    }
    r
}

impl Group {
    /// A group of the processes at `instances`, ordered by PID, with its totals.
    pub fn new(ps: &Vec<ProcessInfo>, name: String, instances: Vec<usize>) -> (g: Group)
        requires
            distinct_indices(instances@, ps@.len()),
            totals_fit(ps@),
        ensures
            g@ == (GroupSpec { name: name@, members: pid_sorted(ps@, instances@) }),
            g.totals_ok(ps@),
            g.instances.len() == instances.len(),
    {
        let sorted = pid_sorted_exec(ps, &instances);
        let cpu = sum_measure(ps, &sorted, Measure::Cpu);
        let memory = sum_measure(ps, &sorted, Measure::Memory);
        let disk = sum_measure(ps, &sorted, Measure::Disk);
        let min_pid = if sorted.len() > 0 {
            ps[sorted[0]].pid
        } else {
            0
        };
        Group { name, instances: sorted, cpu, memory, disk, min_pid }
    }

    /// The PIDs of the members, in order.
    pub fn pids(&self, ps: &Vec<ProcessInfo>) -> (r: Vec<u32>)
        requires
            distinct_indices(self.instances@, ps@.len()),
        ensures
            r@ == self.instances@.map_values(|i: usize| ps@[i as int].pid),
    {
        let mut r: Vec<u32> = Vec::new();
        let mut k: usize = 0;
        while k < self.instances.len()
            invariant
                k <= self.instances.len(),
                distinct_indices(self.instances@, ps@.len()),
                r@ =~= self.instances@.take(k as int).map_values(|i: usize| ps@[i as int].pid),
            decreases self.instances.len() - k,
        {
            r.push(ps[self.instances[k]].pid);
            k = k + 1;
            proof {
                assert(self.instances@.take(k as int) =~= self.instances@.take(k - 1).push(self.instances@[k - 1]));
            }
        }
        proof {
            assert(self.instances@.take(k as int) =~= self.instances@);
        }
        r
    }
}

/// Splits `s` into maximal runs of consecutive processes with the same group name.
pub open spec fn runs(s: Seq<usize>, ps: Seq<ProcessInfo>, by: GroupBy) -> Seq<Seq<usize>>
    decreases s.len(),
{
    if s.len() == 0 {
        Seq::empty()
    } else {
        let r = runs(s.drop_last(), ps, by);
        let x = s.last();
        if r.len() > 0 && group_name(ps[r.last().last() as int], by) == group_name(ps[x as int], by) {
            r.update(r.len() - 1, r.last().push(x))
        } else {
            r.push(seq![x])
        }
    }
}

/// The indices ordered by group name (character by character), stably.
pub open spec fn name_sorted(ps: Seq<ProcessInfo>, idx: Seq<usize>, by: GroupBy) -> Seq<usize> {
    reorder(idx, idx.map_values(|i: usize| text_key(group_name(ps[i as int], by))), false)
}

/// The groups of the processes at `idx`: one per distinct group name, by ascending name, each
/// with its members by ascending PID (a tie keeping the order of `idx`).
pub open spec fn group_specs(ps: Seq<ProcessInfo>, idx: Seq<usize>, by: GroupBy) -> Seq<GroupSpec> {
    runs(name_sorted(ps, idx, by), ps, by).map_values(
        |r: Seq<usize>| GroupSpec { name: group_name(ps[r[0] as int], by), members: pid_sorted(ps, r) },
    )
}

/// Every run is non-empty and holds entries of `s`, each once when `s` has no repeats.
pub proof fn lemma_runs(s: Seq<usize>, ps: Seq<ProcessInfo>, by: GroupBy)
    ensures
        forall|g: int| 0 <= g < runs(s, ps, by).len() ==> #[trigger] runs(s, ps, by)[g].len() > 0,
        forall|g: int, a: int|
            0 <= g < runs(s, ps, by).len() && 0 <= a < runs(s, ps, by)[g].len() ==> s.contains(
                #[trigger] runs(s, ps, by)[g][a],
            ),
        (forall|a: int, b: int| 0 <= a < b < s.len() ==> s[a] != s[b]) ==> forall|g: int, a: int, b: int|
            0 <= g < runs(s, ps, by).len() && 0 <= a < b < runs(s, ps, by)[g].len() ==> #[trigger] runs(
                s,
                ps,
                by,
            )[g][a] != #[trigger] runs(s, ps, by)[g][b],
    decreases s.len(),
{
    if s.len() > 0 {
        let init = s.drop_last();
        lemma_runs(init, ps, by);
        let r = runs(init, ps, by);
        let x = s.last();
        let rr = runs(s, ps, by);
        assert forall|g: int, a: int| 0 <= g < rr.len() && 0 <= a < rr[g].len() implies s.contains(#[trigger] rr[g][a]) by {
            if rr[g][a] == x {
                assert(s[s.len() - 1] == x);
            } else {
                assert(init.contains(rr[g][a]));
                let q = choose|q: int| 0 <= q < init.len() && init[q] == rr[g][a];
                assert(s[q] == rr[g][a]);
            }
        }
        if forall|a: int, b: int| 0 <= a < b < s.len() ==> s[a] != s[b] {
            assert forall|a: int, b: int| 0 <= a < b < init.len() implies init[a] != init[b] by {
                assert(init[a] == s[a] && init[b] == s[b]);
            }
            assert(!init.contains(x)) by {
                if init.contains(x) {
                    let q = choose|q: int| 0 <= q < init.len() && init[q] == x;
                    assert(s[q] == s[s.len() - 1]);
                }
            }
            assert forall|g: int, a: int, b: int| 0 <= g < rr.len() && 0 <= a < b < rr[g].len() implies #[trigger] rr[g][a] != #[trigger] rr[g][b] by {
                if g < r.len() && b < r[g].len() {
                    assert(rr[g][a] == r[g][a] && rr[g][b] == r[g][b]);
                } else if g < r.len() {
                    assert(rr[g][b] == x);
                    assert(rr[g][a] == r[g][a]);
                    assert(init.contains(r[g][a]));
                }
            }
        }
    }
}

proof fn lemma_runs_len(s: Seq<usize>, ps: Seq<ProcessInfo>, by: GroupBy)
    ensures
        forall|g: int| 0 <= g < runs(s, ps, by).len() ==> #[trigger] runs(s, ps, by)[g].len() <= s.len(),
    decreases s.len(),
{
    if s.len() > 0 {
        let init = s.drop_last();
        lemma_runs_len(init, ps, by);
        let r = runs(init, ps, by);
        let rr = runs(s, ps, by);
        assert forall|g: int| 0 <= g < rr.len() implies #[trigger] rr[g].len() <= s.len() by {
            if g < r.len() {
                assert(r[g].len() <= init.len());
            }
        }
    }
}

proof fn lemma_runs_cover(s: Seq<usize>, ps: Seq<ProcessInfo>, by: GroupBy)
    ensures
        forall|i: usize| s.contains(i) ==> exists|g: int| 0 <= g < runs(s, ps, by).len() && #[trigger] runs(s, ps, by)[g].contains(i),
    decreases s.len(),
{
    if s.len() > 0 {
        let init = s.drop_last();
        lemma_runs_cover(init, ps, by);
        lemma_runs(init, ps, by);
        let r = runs(init, ps, by);
        let x = s.last();
        let rr = runs(s, ps, by);
        assert forall|i: usize| s.contains(i) implies exists|g: int| 0 <= g < rr.len() && #[trigger] rr[g].contains(i) by {
            if i == x {
                let last = rr[rr.len() - 1];
                assert(last[last.len() - 1] == x);
                assert(rr[rr.len() - 1].contains(i));
            } else {
                let q = choose|q: int| 0 <= q < s.len() && s[q] == i;
                assert(init[q] == i);
                assert(init.contains(i));
                let g = choose|g: int| 0 <= g < r.len() && #[trigger] r[g].contains(i);
                let a = choose|a: int| 0 <= a < r[g].len() && r[g][a] == i;
                assert(rr[g][a] == i);
                assert(rr[g].contains(i));
            }
        }
    }
}

proof fn lemma_runs_names(s: Seq<usize>, ps: Seq<ProcessInfo>, by: GroupBy)
    ensures
        forall|g: int, a: int|
            0 <= g < runs(s, ps, by).len() && 0 <= a < runs(s, ps, by)[g].len() ==> group_name(
                ps[#[trigger] runs(s, ps, by)[g][a] as int],
                by,
            ) == group_name(ps[runs(s, ps, by)[g][0] as int], by),
    decreases s.len(),
{
    if s.len() > 0 {
        let init = s.drop_last();
        lemma_runs_names(init, ps, by);
        lemma_runs(init, ps, by);
        let r = runs(init, ps, by);
        let x = s.last();
        let rr = runs(s, ps, by);
        let joined = r.len() > 0 && group_name(ps[r.last().last() as int], by) == group_name(ps[x as int], by);
        assert forall|g: int, a: int| 0 <= g < rr.len() && 0 <= a < rr[g].len() implies group_name(
            ps[#[trigger] rr[g][a] as int],
            by,
        ) == group_name(ps[rr[g][0] as int], by) by {
            if joined && g == r.len() - 1 && a == r[g].len() {
                let l = r[g].len() - 1;
                assert(group_name(ps[r[g][l] as int], by) == group_name(ps[r[g][0] as int], by));
            } else if g < r.len() {
                assert(rr[g][a] == r[g][a]);
                assert(rr[g][0] == r[g][0]);
            }
        }
    }
}

proof fn lemma_runs_disjoint(s: Seq<usize>, ps: Seq<ProcessInfo>, by: GroupBy)
    requires
        forall|a: int, b: int| 0 <= a < b < s.len() ==> s[a] != s[b],
    ensures
        forall|i: usize, g1: int, g2: int|
            0 <= g1 < g2 < runs(s, ps, by).len() ==> !(#[trigger] runs(s, ps, by)[g1].contains(i)
                && #[trigger] runs(s, ps, by)[g2].contains(i)),
    decreases s.len(),
{
    if s.len() > 0 {
        let init = s.drop_last();
        assert forall|a: int, b: int| 0 <= a < b < init.len() implies init[a] != init[b] by {
            assert(init[a] == s[a] && init[b] == s[b]);
        }
        lemma_runs_disjoint(init, ps, by);
        lemma_runs(init, ps, by);
        let r = runs(init, ps, by);
        let x = s.last();
        let rr = runs(s, ps, by);
        let joined = r.len() > 0 && group_name(ps[r.last().last() as int], by) == group_name(ps[x as int], by);
        assert(!init.contains(x)) by {
            if init.contains(x) {
                let q = choose|q: int| 0 <= q < init.len() && init[q] == x;
                assert(s[q] == s[s.len() - 1]);
            }
        }
        assert forall|i: usize, g: int| 0 <= g < r.len() && #[trigger] r[g].contains(i) implies i != x by {
            let a = choose|a: int| 0 <= a < r[g].len() && r[g][a] == i;
            assert(init.contains(r[g][a]));
        }
        assert forall|i: usize, g1: int, g2: int| 0 <= g1 < g2 < rr.len() implies !(#[trigger] rr[g1].contains(i)
            && #[trigger] rr[g2].contains(i)) by {
            if rr[g1].contains(i) && rr[g2].contains(i) {
                let a1 = choose|a: int| 0 <= a < rr[g1].len() && rr[g1][a] == i;
                let a2 = choose|a: int| 0 <= a < rr[g2].len() && rr[g2][a] == i;
                assert(g1 < r.len());
                assert(rr[g1][a1] == r[g1][a1]);
                assert(r[g1].contains(i));
                if g2 < r.len() && !(joined && g2 == r.len() - 1 && a2 == r[g2].len()) {
                    assert(rr[g2][a2] == r[g2][a2]);
                    assert(r[g2].contains(i));
                }
            }
        }
    }
}

/// The key a process is grouped and its group ordered by: its group name's text key.
pub open spec fn name_key(ps: Seq<ProcessInfo>, i: usize, by: GroupBy) -> Seq<u64> {
    text_key(group_name(ps[i as int], by))
}

/// When `s` is ordered by group name, its runs come in strictly ascending name order.
pub proof fn lemma_runs_ascending(s: Seq<usize>, ps: Seq<ProcessInfo>, by: GroupBy)
    requires
        forall|a: int, b: int| 0 <= a < b < s.len() ==> in_order(name_key(ps, s[a], by), name_key(ps, s[b], by), false),
    ensures
        forall|g1: int, g2: int|
            0 <= g1 < g2 < runs(s, ps, by).len() ==> key_before(
                name_key(ps, runs(s, ps, by)[g1][0], by),
                name_key(ps, runs(s, ps, by)[g2][0], by),
            ),
    decreases s.len(),
{
    if s.len() > 0 {
        let init = s.drop_last();
        assert forall|a: int, b: int| 0 <= a < b < init.len() implies in_order(
            name_key(ps, init[a], by),
            name_key(ps, init[b], by),
            false,
        ) by {
            assert(init[a] == s[a] && init[b] == s[b]);
        }
        lemma_runs_ascending(init, ps, by);
        lemma_runs(init, ps, by);
        lemma_runs_names(init, ps, by);
        let r = runs(init, ps, by);
        let x = s.last();
        let rr = runs(s, ps, by);
        let joined = r.len() > 0 && group_name(ps[r.last().last() as int], by) == group_name(ps[x as int], by);
        if joined {
            assert forall|g: int| 0 <= g < rr.len() implies rr[g][0] == r[g][0] by {}
        } else if r.len() > 0 {
            let l = r.len() - 1;
            let y = r[l][r[l].len() - 1];
            assert(y == r.last().last());
            assert(init.contains(y));
            let q = choose|q: int| 0 <= q < init.len() && init[q] == y;
            assert(s[q] == y && s[s.len() - 1] == x);
            assert(in_order(name_key(ps, y, by), name_key(ps, x, by), false));
            if name_key(ps, y, by) == name_key(ps, x, by) {
                lemma_text_key_injective(group_name(ps[y as int], by), group_name(ps[x as int], by));
            }
            lemma_key_order(name_key(ps, y, by), name_key(ps, x, by), name_key(ps, x, by));
            assert(group_name(ps[y as int], by) == group_name(ps[r[l][0] as int], by));
            assert forall|g1: int, g2: int| 0 <= g1 < g2 < rr.len() implies key_before(
                name_key(ps, rr[g1][0], by),
                name_key(ps, rr[g2][0], by),
            ) by {
                assert(rr[g1] == r[g1]);
                if g2 < r.len() {
                    assert(rr[g2] == r[g2]);
                } else {
                    assert(rr[g2][0] == x);
                    if g1 < l {
                        lemma_key_order(name_key(ps, r[g1][0], by), name_key(ps, r[l][0], by), name_key(ps, x, by));
                    }
                }
            }
        }
    }
}

/// There are at most as many runs as entries, and some as soon as there is an entry.
pub proof fn lemma_runs_count(s: Seq<usize>, ps: Seq<ProcessInfo>, by: GroupBy)
    ensures
        runs(s, ps, by).len() <= s.len(),
        s.len() > 0 ==> runs(s, ps, by).len() > 0,
    decreases s.len(),
{
    if s.len() > 0 {
        lemma_runs_count(s.drop_last(), ps, by);
    }
}

/// The runs of `s` split it: each run is at most as long as `s`, every entry of `s` lies in a
/// run, every member of a run has the group name of the run's first member, and when the
/// entries of `s` are distinct no entry lies in two runs.
pub proof fn lemma_runs_partition(s: Seq<usize>, ps: Seq<ProcessInfo>, by: GroupBy)
    ensures
        forall|g: int| 0 <= g < runs(s, ps, by).len() ==> #[trigger] runs(s, ps, by)[g].len() <= s.len(),
        forall|i: usize| s.contains(i) ==> exists|g: int| 0 <= g < runs(s, ps, by).len() && #[trigger] runs(s, ps, by)[g].contains(i),
        forall|g: int, a: int|
            0 <= g < runs(s, ps, by).len() && 0 <= a < runs(s, ps, by)[g].len() ==> group_name(
                ps[#[trigger] runs(s, ps, by)[g][a] as int],
                by,
            ) == group_name(ps[runs(s, ps, by)[g][0] as int], by),
        (forall|a: int, b: int| 0 <= a < b < s.len() ==> s[a] != s[b]) ==> forall|i: usize, g1: int, g2: int|
            0 <= g1 < g2 < runs(s, ps, by).len() ==> !(#[trigger] runs(s, ps, by)[g1].contains(i)
                && #[trigger] runs(s, ps, by)[g2].contains(i)),
{
    lemma_runs_len(s, ps, by);
    lemma_runs_cover(s, ps, by);
    lemma_runs_names(s, ps, by);
    if forall|a: int, b: int| 0 <= a < b < s.len() ==> s[a] != s[b] {
        lemma_runs_disjoint(s, ps, by);
    }
}

/// The name of a process's group.
pub fn group_name_exec(p: &ProcessInfo, by: GroupBy) -> (n: String)
    ensures
        n@ == group_name(*p, by),
{
    match by {
        GroupBy::Name => p.name.clone(),
        GroupBy::User => match &p.user_name {
            Some(u) => u.clone(),
            None => String::from_str("Unknown"),
        },
    }
}

/// The runs of `s`, as one list per group.
fn runs_exec(ps: &Vec<ProcessInfo>, s: &Vec<usize>, by: GroupBy) -> (rs: Vec<Vec<usize>>)
    requires
        forall|a: int| 0 <= a < s.len() ==> #[trigger] s@[a] < ps.len(),
    ensures
        rs@.map_values(|r: Vec<usize>| r@) == runs(s@, ps@, by),
{
    let mut done: Vec<Vec<usize>> = Vec::new();
    if s.len() == 0 {
        proof {
            assert(done@.map_values(|r: Vec<usize>| r@) =~= runs(s@, ps@, by));
        }
        return done;
    }
    let mut cur: Vec<usize> = Vec::new();
    cur.push(s[0]);
    let mut cur_name = group_name_exec(&ps[s[0]], by);
    proof {
        let t = s@.take(1);
        assert(t.drop_last() =~= Seq::<usize>::empty());
        assert(runs(Seq::<usize>::empty(), ps@, by).len() == 0);
        assert(runs(t.drop_last(), ps@, by).len() == 0);
        assert(t.last() == s@[0]);
        assert(runs(t, ps@, by) =~= seq![seq![s@[0]]]);
    }
    let mut k: usize = 1;
    while k < s.len()
        invariant
            1 <= k <= s.len(),
            forall|a: int| 0 <= a < s.len() ==> #[trigger] s@[a] < ps.len(),
            cur.len() > 0,
            cur@[cur.len() - 1] < ps.len(),
            cur_name@ == group_name(ps@[cur@[cur.len() - 1] as int], by),
            runs(s@.take(k as int), ps@, by) == done@.map_values(|r: Vec<usize>| r@).push(cur@),
        decreases s.len() - k,
    {
        let x = s[k];
        let name = group_name_exec(&ps[x], by);
        proof {
            assert(s@.take(k + 1).drop_last() =~= s@.take(k as int));
            assert(s@.take(k + 1).last() == x);
        }
        if name == cur_name {
            cur.push(x);
            proof {
                assert(runs(s@.take(k + 1), ps@, by) =~= done@.map_values(|r: Vec<usize>| r@).push(cur@));
            }
        } else {
            let ghost old_done = done@.map_values(|r: Vec<usize>| r@);
            let ghost old_cur = cur@;
            let mut finished: Vec<usize> = Vec::new();
            std::mem::swap(&mut cur, &mut finished);
            done.push(finished);
            cur.push(x);
            cur_name = name;
            proof {
                assert(done@.map_values(|r: Vec<usize>| r@) =~= old_done.push(old_cur));
                assert(runs(s@.take(k + 1), ps@, by) =~= old_done.push(old_cur).push(seq![x]));
                assert(cur@ =~= seq![x]);
            }
        }
        k = k + 1;
    }
    let ghost before = done@.map_values(|r: Vec<usize>| r@);
    done.push(cur);
    proof {
        assert(s@.take(s.len() as int) =~= s@);
        assert(done@.map_values(|r: Vec<usize>| r@) =~= before.push(cur@));
    }
    done
}

/// Groups the processes at `idx`: one group per distinct group name, by ascending name.
pub fn group_by(ps: &Vec<ProcessInfo>, idx: &Vec<usize>, by: GroupBy) -> (groups: Vec<Group>)
    requires
        distinct_indices(idx@, ps@.len()),
        totals_fit(ps@),
    ensures
        groups@.map_values(|g: Group| g@) == group_specs(ps@, idx@, by),
        forall|g: int| 0 <= g < groups.len() ==> (#[trigger] groups@[g]).totals_ok(ps@),
        forall|g: int| 0 <= g < groups.len() ==> (#[trigger] groups@[g]).instances.len() > 0,
{
    let mut keys: Vec<Vec<u64>> = Vec::new();
    let mut k: usize = 0;
    while k < idx.len()
        invariant
            k <= idx.len(),
            distinct_indices(idx@, ps@.len()),
            keys.len() == k,
            forall|a: int| 0 <= a < k ==> #[trigger] keys@[a]@ == text_key(group_name(ps@[idx@[a] as int], by)),
        decreases idx.len() - k,
    {
        let n = group_name_exec(&ps[idx[k]], by);
        let mut kk: Vec<u64> = Vec::new();
        push_text_key(&mut kk, n.as_str());
        proof {
            assert(kk@ =~= text_key(group_name(ps@[idx@[k as int] as int], by)));
        }
        keys.push(kk);
        k = k + 1;
    }
    proof {
        assert(key_views(keys@) =~= idx@.map_values(|i: usize| text_key(group_name(ps@[i as int], by))));
    }
    let s = reorder_exec(idx, &keys, false);
    proof {
        assert forall|a: int| 0 <= a < s.len() implies #[trigger] s@[a] < ps.len() by {
            assert(idx@.contains(s@[a]));
        }
    }
    let rs = runs_exec(ps, &s, by);
    proof {
        lemma_runs(s@, ps@, by);
    }
    let ghost spec_runs = runs(s@, ps@, by);
    let mut groups: Vec<Group> = Vec::new();
    let mut g: usize = 0;
    while g < rs.len()
        invariant
            g <= rs.len(),
            totals_fit(ps@),
            spec_runs == rs@.map_values(|r: Vec<usize>| r@),
            spec_runs == runs(s@, ps@, by),
            s@ == name_sorted(ps@, idx@, by),
            forall|a: int| 0 <= a < s.len() ==> #[trigger] s@[a] < ps.len(),
            forall|a: int, b: int| 0 <= a < b < s.len() ==> s@[a] != s@[b],
            forall|h: int| 0 <= h < spec_runs.len() ==> #[trigger] spec_runs[h].len() > 0,
            forall|h: int, a: int| 0 <= h < spec_runs.len() && 0 <= a < spec_runs[h].len() ==> s@.contains(#[trigger] spec_runs[h][a]),
            forall|h: int, a: int, b: int|
                0 <= h < spec_runs.len() && 0 <= a < b < spec_runs[h].len() ==> #[trigger] spec_runs[h][a] != #[trigger] spec_runs[h][b],
            groups.len() == g,
            forall|h: int| 0 <= h < g ==> (#[trigger] groups@[h])@ == (GroupSpec {
                name: group_name(ps@[spec_runs[h][0] as int], by),
                members: pid_sorted(ps@, spec_runs[h]),
            }),
            forall|h: int| 0 <= h < g ==> (#[trigger] groups@[h]).totals_ok(ps@),
            forall|h: int| 0 <= h < g ==> (#[trigger] groups@[h]).instances.len() > 0,
        decreases rs.len() - g,
    {
        let run = &rs[g];
        proof {
            assert(run@ == spec_runs[g as int]);
            assert forall|a: int| 0 <= a < run.len() implies #[trigger] run@[a] < ps.len() by {
                assert(s@.contains(spec_runs[g as int][a]));
            }
            assert(s@.contains(spec_runs[g as int][0]));
        }
        let name = group_name_exec(&ps[run[0]], by);
        let members = run.clone();
        let grp = Group::new(ps, name, members);
        groups.push(grp);
        g = g + 1;
    }
    proof {
        assert(groups@.map_values(|g: Group| g@) =~= group_specs(ps@, idx@, by));
    }
    groups
}

/// The sort key of a group for a column: its first PID, its totals, or its lowercased name.
pub open spec fn group_key(ps: Seq<ProcessInfo>, g: GroupSpec, key: SortKey) -> Seq<u64> {
    match key {
        SortKey::Pid => seq![first_pid(ps, g.members) as u64],
        SortKey::Cpu => seq![idx_sum(ps, g.members, Measure::Cpu) as u64],
        SortKey::Memory => seq![idx_sum(ps, g.members, Measure::Memory) as u64],
        SortKey::Disk => seq![idx_sum(ps, g.members, Measure::Disk) as u64],
        _ => text_key(lowercase(g.name)),
    }
}

/// The order in which groups are shown: stably sorted by a column.
pub open spec fn group_order(ps: Seq<ProcessInfo>, gs: Seq<GroupSpec>, key: SortKey, desc: bool) -> Seq<usize> {
    reorder(
        Seq::new(gs.len(), |i: int| i as usize),
        gs.map_values(|g: GroupSpec| group_key(ps, g, key)),
        desc,
    )
}

/// The positions of `groups` in the order a column sorts them.
pub fn sort_groups(ps: &Vec<ProcessInfo>, groups: &Vec<Group>, key: SortKey, desc: bool) -> (order: Vec<usize>)
    requires
        forall|g: int| 0 <= g < groups.len() ==> (#[trigger] groups@[g]).totals_ok(ps@),
    ensures
        order@ == group_order(ps@, groups@.map_values(|g: Group| g@), key, desc),
        order.len() == groups.len(),
        forall|a: int| 0 <= a < order.len() ==> #[trigger] order@[a] < groups.len(),
{
    let mut keys: Vec<Vec<u64>> = Vec::new();
    let mut positions: Vec<usize> = Vec::new();
    let mut k: usize = 0;
    while k < groups.len()
        invariant
            k <= groups.len(),
            forall|g: int| 0 <= g < groups.len() ==> (#[trigger] groups@[g]).totals_ok(ps@),
            keys.len() == k,
            positions@ =~= Seq::new(k as nat, |i: int| i as usize),
            forall|a: int| 0 <= a < k ==> #[trigger] keys@[a]@ == group_key(ps@, groups@[a]@, key),
        decreases groups.len() - k,
    {
        let g = &groups[k];
        let mut kk: Vec<u64> = Vec::new();
        match key {
            SortKey::Pid => kk.push(g.min_pid as u64),
            SortKey::Cpu => kk.push(g.cpu),
            SortKey::Memory => kk.push(g.memory),
            SortKey::Disk => kk.push(g.disk),
            _ => {
                let l = to_lower(g.name.as_str());
                push_text_key(&mut kk, l.as_str());
            },
        }
        proof {
            assert(kk@ =~= group_key(ps@, groups@[k as int]@, key));
        }
        keys.push(kk);
        positions.push(k);
        k = k + 1;
    }
    proof {
        assert(key_views(keys@) =~= groups@.map_values(|g: Group| g@).map_values(|g: GroupSpec| group_key(ps@, g, key)));
    }
    let order = reorder_exec(&positions, &keys, desc);
    proof {
        assert forall|a: int| 0 <= a < order.len() implies #[trigger] order@[a] < groups.len() by {
            assert(positions@.contains(order@[a]));
        }
    }
    order
}

} // verus!
