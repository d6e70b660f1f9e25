//! The system data the tables show, as plain values.
//!
//! CPU load is held in units of 2^-40 percent of one core, which holds every single-precision
//! share from 2^-17 percent up exactly; disk throughput in whole bytes per second and CPU time
//! in milliseconds. Sums, comparisons and renderings on these are exact; a group's CPU share is
//! the exact sum of its members', which is what adding them as doubles gives while the sum
//! stays below 2^53 units (8192 percent).
use vstd::prelude::*;

verus! {

/// One percent of CPU load, in the units `ProcessInfo::cpu_units` counts (2^40).
pub const CPU_UNITS_PER_PERCENT: u64 = 1099511627776;

/// One running process.
#[derive(Debug)]
pub struct ProcessInfo {
    pub pid: u32,
    pub name: String,
    /// CPU load in units of 2^-40 percent of one core (`CPU_UNITS_PER_PERCENT` is 1%): the
    /// single-precision share the system reports, scaled without loss.
    pub cpu_units: u64,
    /// Resident memory in bytes.
    pub memory: u64,
    /// Disk read + write rate in bytes per second.
    pub disk_bytes_per_sec: u64,
    pub status: String,
    pub user_name: Option<String>,
}

impl Clone for ProcessInfo {
    fn clone(&self) -> (r: Self)
        ensures
            r == *self,
    {
        ProcessInfo {
            pid: self.pid,
            name: self.name.clone(),
            cpu_units: self.cpu_units,
            memory: self.memory,
            disk_bytes_per_sec: self.disk_bytes_per_sec,
            status: self.status.clone(),
            user_name: match &self.user_name {
                Some(u) => Some(u.clone()),
                None => None,
            },
        }
    }
}

/// CPU time an application used since it was first seen.
#[derive(Clone, Debug)]
pub struct AppHistoryEntry {
    pub name: String,
    /// CPU time in milliseconds.
    pub cpu_millis: u64,
}

/// A system service.
#[derive(Clone, Debug)]
pub struct ServiceInfo {
    pub name: String,
    pub description: String,
    pub status: String,
}

/// A program that starts with the session.
#[derive(Clone, Debug)]
pub struct StartupAppInfo {
    pub name: String,
    pub publisher: String,
    pub enabled: bool,
}

/// A quantity of a process that tables add up over groups.
#[derive(Clone, Copy, PartialEq, Eq, Structural)]
pub enum Measure {
    Cpu,
    Memory,
    Disk,
}

pub open spec fn measure(p: ProcessInfo, m: Measure) -> nat {
    match m {
        Measure::Cpu => p.cpu_units as nat,
        Measure::Memory => p.memory as nat,
        Measure::Disk => p.disk_bytes_per_sec as nat,
    }
}

/// Sum of a measure over the processes at `idx`.
pub open spec fn idx_sum(ps: Seq<ProcessInfo>, idx: Seq<usize>, m: Measure) -> nat
    decreases idx.len(),
{
    if idx.len() == 0 {
        0
    } else {
        idx_sum(ps, idx.drop_last(), m) + measure(ps[idx.last() as int], m)
    }
}

/// All indices `0..n`.
pub open spec fn all_indices(n: nat) -> Seq<usize> {
    Seq::new(n, |i: int| i as usize)
}

/// The totals over all processes fit in 64 bits, so that every group total does too.
pub open spec fn totals_fit(ps: Seq<ProcessInfo>) -> bool {
    forall|m: Measure| #[trigger] idx_sum(ps, all_indices(ps.len()), m) <= u64::MAX
}

/// Indices listed at most once, each naming a process.
pub open spec fn distinct_indices(idx: Seq<usize>, n: nat) -> bool {
    &&& forall|a: int| 0 <= a < idx.len() ==> #[trigger] idx[a] < n
    &&& forall|a: int, b: int| 0 <= a < b < idx.len() ==> idx[a] != idx[b]
}

/// Sum of a measure over the processes `0..n` that are in `s`.
spec fn mask_sum(ps: Seq<ProcessInfo>, s: Set<usize>, n: nat, m: Measure) -> nat
    decreases n,
{
    if n == 0 {
        0
    } else {
        mask_sum(ps, s, (n - 1) as nat, m) + if s.contains((n - 1) as usize) {
            measure(ps[n - 1], m)
        } else {
            0
        }
    }
}

proof fn lemma_mask_insert(ps: Seq<ProcessInfo>, s: Set<usize>, x: usize, n: nat, m: Measure)
    requires
        !s.contains(x),
        n <= usize::MAX + 1,
    ensures
        mask_sum(ps, s.insert(x), n, m) == mask_sum(ps, s, n, m) + if x < n {
            measure(ps[x as int], m)
        } else {
            0
        },
    decreases n,
{
    if n > 0 {
        lemma_mask_insert(ps, s, x, (n - 1) as nat, m);
    }
}

proof fn lemma_mask_mono(ps: Seq<ProcessInfo>, s: Set<usize>, t: Set<usize>, n: nat, m: Measure)
    requires
        s.subset_of(t),
    ensures
        mask_sum(ps, s, n, m) <= mask_sum(ps, t, n, m),
    decreases n,
{
    if n > 0 {
        lemma_mask_mono(ps, s, t, (n - 1) as nat, m);
    }
}

proof fn lemma_idx_mask(ps: Seq<ProcessInfo>, idx: Seq<usize>, n: nat, m: Measure)
    requires
        distinct_indices(idx, n),
        n <= usize::MAX + 1,
    ensures
        idx_sum(ps, idx, m) == mask_sum(ps, idx.to_set(), n, m),
    decreases idx.len(),
{
    if idx.len() == 0 {
        assert(idx.to_set() =~= Set::<usize>::empty());
        lemma_mask_zero(ps, n, m);
    } else {
        let init = idx.drop_last();
        let x = idx.last();
        lemma_idx_mask(ps, init, n, m);
        assert(idx =~= init.push(x));
        assert(idx.to_set() =~= init.to_set().insert(x)) by {
            init.lemma_push_to_set_commute(x);
        }
        assert(!init.to_set().contains(x)) by {
            if init.to_set().contains(x) {
                let a = choose|a: int| 0 <= a < init.len() && init[a] == x;
                assert(idx[a] == idx[idx.len() - 1]);
            }
        }
        lemma_mask_insert(ps, init.to_set(), x, n, m);
    }
}

proof fn lemma_mask_zero(ps: Seq<ProcessInfo>, n: nat, m: Measure)
    ensures
        mask_sum(ps, Set::empty(), n, m) == 0,
    decreases n,
{
    if n > 0 {
        lemma_mask_zero(ps, (n - 1) as nat, m);
    }
}

/// Any group of distinct processes adds up to at most the total over all processes.
pub proof fn lemma_group_sum_bounded(ps: Seq<ProcessInfo>, idx: Seq<usize>, m: Measure)
    requires
        distinct_indices(idx, ps.len()),
        ps.len() <= usize::MAX,
    ensures
        idx_sum(ps, idx, m) <= idx_sum(ps, all_indices(ps.len()), m),
{
    let all = all_indices(ps.len());
    lemma_idx_mask(ps, idx, ps.len(), m);
    lemma_idx_mask(ps, all, ps.len(), m);
    assert(idx.to_set().subset_of(all.to_set())) by {
        assert forall|x: usize| idx.to_set().contains(x) implies all.to_set().contains(x) by {
            let a = choose|a: int| 0 <= a < idx.len() && idx[a] == x;
            assert(all[x as int] == x);
        }
    }
    lemma_mask_mono(ps, idx.to_set(), all.to_set(), ps.len(), m);
}

/// A prefix of the indices adds up to at most the whole.
pub proof fn lemma_prefix_sum_le(ps: Seq<ProcessInfo>, idx: Seq<usize>, k: int, m: Measure)
    requires
        0 <= k <= idx.len(),
    ensures
        idx_sum(ps, idx.take(k), m) <= idx_sum(ps, idx, m),
    decreases idx.len(),
{
    if k < idx.len() {
        lemma_prefix_sum_le(ps, idx.drop_last(), k, m);
        assert(idx.drop_last().take(k) =~= idx.take(k));
    } else {
        assert(idx.take(k) =~= idx);
    }
}

/// The processes whose PID is not in `ended`, in order.
pub open spec fn survivors(ps: Seq<ProcessInfo>, ended: Set<u32>) -> Seq<ProcessInfo>
    decreases ps.len(),
{
    if ps.len() == 0 {
        Seq::empty()
    } else {
        let rest = survivors(ps.drop_last(), ended);
        if ended.contains(ps.last().pid) {
            rest
        } else {
            rest.push(ps.last())
        }
    }
}

/// A measure summed over all processes.
pub open spec fn total(ps: Seq<ProcessInfo>, m: Measure) -> nat {
    idx_sum(ps, all_indices(ps.len()), m)
}

proof fn lemma_idx_sum_same(ps1: Seq<ProcessInfo>, ps2: Seq<ProcessInfo>, idx: Seq<usize>, m: Measure)
    requires
        forall|a: int| 0 <= a < idx.len() ==> ps1[idx[a] as int] == ps2[idx[a] as int],
    ensures
        idx_sum(ps1, idx, m) == idx_sum(ps2, idx, m),
    decreases idx.len(),
{
    if idx.len() > 0 {
        lemma_idx_sum_same(ps1, ps2, idx.drop_last(), m);
    }
}

proof fn lemma_total_push(ps: Seq<ProcessInfo>, x: ProcessInfo, m: Measure)
    requires
        ps.len() < usize::MAX,
    ensures
        total(ps.push(x), m) == total(ps, m) + measure(x, m),
{
    let n = ps.len();
    let big = ps.push(x);
    assert(all_indices(n + 1).drop_last() =~= all_indices(n));
    lemma_idx_sum_same(big, ps, all_indices(n), m);
}

proof fn lemma_survivors_total(ps: Seq<ProcessInfo>, ended: Set<u32>, m: Measure)
    requires
        ps.len() <= usize::MAX,
    ensures
        total(survivors(ps, ended), m) <= total(ps, m),
        survivors(ps, ended).len() <= ps.len(),
    decreases ps.len(),
{
    if ps.len() > 0 {
        let init = ps.drop_last();
        lemma_survivors_total(init, ended, m);
        assert(ps =~= init.push(ps.last()));
        lemma_total_push(init, ps.last(), m);
        if !ended.contains(ps.last().pid) {
            lemma_total_push(survivors(init, ended), ps.last(), m);
        }
    }
}

/// Removing processes keeps the totals within 64 bits.
pub proof fn lemma_survivors_fit(ps: Seq<ProcessInfo>, ended: Set<u32>)
    requires
        totals_fit(ps),
        ps.len() <= usize::MAX,
    ensures
        totals_fit(survivors(ps, ended)),
{
    assert forall|m: Measure| #[trigger] idx_sum(survivors(ps, ended), all_indices(survivors(ps, ended).len()), m) <= u64::MAX by {
        lemma_survivors_total(ps, ended, m);
        assert(idx_sum(ps, all_indices(ps.len()), m) <= u64::MAX);
    }
}

proof fn lemma_total_take(ps: Seq<ProcessInfo>, i: int, m: Measure)
    requires
        0 <= i < ps.len(),
        ps.len() <= usize::MAX,
    ensures
        total(ps.take(i + 1), m) == total(ps.take(i), m) + measure(ps[i], m),
{
    assert(ps.take(i + 1) =~= ps.take(i).push(ps[i]));
    lemma_total_push(ps.take(i), ps[i], m);
}

/// Whether the CPU, memory and disk totals over all processes fit in 64 bits, as every
/// table's group sums need.
pub fn check_totals(ps: &Vec<ProcessInfo>) -> (r: bool)
    ensures
        r == totals_fit(ps@),
{
    let mut cpu: u128 = 0;
    let mut memory: u128 = 0;
    let mut disk: u128 = 0;
    let mut i: usize = 0;
    proof {
        assert(ps@.take(0) =~= Seq::<ProcessInfo>::empty());
        assert(all_indices(0) =~= Seq::<usize>::empty());
    }
    while i < ps.len()
        invariant
            i <= ps.len(),
            cpu == total(ps@.take(i as int), Measure::Cpu),
            memory == total(ps@.take(i as int), Measure::Memory),
            disk == total(ps@.take(i as int), Measure::Disk),
            cpu <= i * 18446744073709551615,
            memory <= i * 18446744073709551615,
            disk <= i * 18446744073709551615,
        decreases ps.len() - i,
    {
        let p = &ps[i];
        proof {
            lemma_total_take(ps@, i as int, Measure::Cpu);
            lemma_total_take(ps@, i as int, Measure::Memory);
            lemma_total_take(ps@, i as int, Measure::Disk);
            assert((i + 1) * 18446744073709551615 == i * 18446744073709551615 + 18446744073709551615)
                by (nonlinear_arith);
            assert((i + 1) * 18446744073709551615 <= 18446744073709551616 * 18446744073709551615)
                by (nonlinear_arith)
                requires
                    i < 18446744073709551616,
            ;
        }
        cpu = cpu + p.cpu_units as u128;
        memory = memory + p.memory as u128;
        disk = disk + p.disk_bytes_per_sec as u128;
        i = i + 1;
    }
    proof {
        assert(ps@.take(i as int) =~= ps@);
        assert forall|m: Measure| #[trigger] idx_sum(ps@, all_indices(ps@.len()), m) == total(ps@, m) by {}
        if cpu <= 18446744073709551615 && memory <= 18446744073709551615 && disk <= 18446744073709551615 {
            assert forall|m: Measure| #[trigger] idx_sum(ps@, all_indices(ps@.len()), m) <= u64::MAX by {
                match m {
                    Measure::Cpu => {},
                    Measure::Memory => {},
                    Measure::Disk => {},
                }
            }
        } else if cpu > 18446744073709551615 {
            assert(idx_sum(ps@, all_indices(ps@.len()), Measure::Cpu) > u64::MAX);
        } else if memory > 18446744073709551615 {
            assert(idx_sum(ps@, all_indices(ps@.len()), Measure::Memory) > u64::MAX);
        } else {
            assert(idx_sum(ps@, all_indices(ps@.len()), Measure::Disk) > u64::MAX);
        }
    }
    cpu <= 18446744073709551615 && memory <= 18446744073709551615 && disk <= 18446744073709551615
}

} // verus!
