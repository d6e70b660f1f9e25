//! What opening and closing rows does, and what an open group shows.
use crate::app::{toggled, AppV};
use crate::column_laws::{law_processes_sorted_by_column, lemma_reorder_in_order, processes_in_column_order};
use crate::grouped::{app_key, app_row, app_rows, user_key, user_rows};
use crate::groups::{first_pid, pid_sorted, GroupSpec};
use crate::keys::ix;
use crate::model::ProcessInfo;
use crate::order::{lemma_single_key, sorted_order};
use crate::tabs::SortKey;
use crate::views::{lemma_reorder_permutes, pid_key, process_key, sort_processes, Toggle};
use vstd::prelude::*;

verus! {

/// Whether a row is open: a group when its key is expanded, a section unless its key is
/// collapsed.
pub open spec fn row_open(a: AppV, key: Seq<char>, toggle: Toggle) -> bool {
    match toggle {
        Toggle::Expand => a.expanded.contains(key),
        Toggle::Section => !a.collapsed.contains(key),
        Toggle::Leaf => false,
    }
}

/// Opening a group or section row (Right, or a flip while closed) leaves it open, closing it
/// (Left, or a flip while open) leaves it closed, and a flip (Enter, a click on the selected
/// row) turns it the other way. No other row opens or closes, and the tabs stay as they were.
/// A plain row changes nothing.
pub proof fn law_toggle_opens_and_closes(a: AppV, row: crate::views::RowSpec, want: Option<bool>)
    ensures
        ({
            let b = toggled(a, row, want);
            &&& row.toggle == Toggle::Leaf ==> b == a
            &&& row.toggle != Toggle::Leaf ==> row_open(b, row.key, row.toggle) == match want {
                Some(w) => w,
                None => !row_open(a, row.key, row.toggle),
            }
            &&& forall|k: Seq<char>|
                k != row.key ==> (b.expanded.contains(k) == a.expanded.contains(k) && b.collapsed.contains(k)
                    == a.collapsed.contains(k))
            &&& row.toggle == Toggle::Expand ==> b.collapsed == a.collapsed
            &&& row.toggle == Toggle::Section ==> b.expanded == a.expanded
            &&& b.tab == a.tab && b.tabs == a.tabs && b.popup == a.popup && b.processes == a.processes
        }),
{
}

/// A group's processes are listed by PID, lowest first, so the PID a group sorts by is the
/// lowest of its processes' PIDs.
pub proof fn law_members_in_pid_order(ps: Seq<ProcessInfo>, idx: Seq<usize>)
    requires
        idx.len() <= usize::MAX,
    ensures
        pid_sorted(ps, idx).len() == idx.len(),
        forall|a: int, b: int|
            0 <= a < b < idx.len() ==> ps[pid_sorted(ps, idx)[a] as int].pid <= ps[pid_sorted(ps, idx)[b] as int].pid,
        forall|a: int| 0 <= a < idx.len() ==> first_pid(ps, pid_sorted(ps, idx)) <= #[trigger] ps[idx[a] as int].pid,
        idx.len() > 0 ==> exists|a: int| 0 <= a < idx.len() && first_pid(ps, pid_sorted(ps, idx)) == #[trigger] ps[idx[a] as int].pid,
{
    let keys = idx.map_values(|i: usize| seq![ps[i as int].pid as u64]);
    lemma_reorder_in_order(idx, keys, false);
    let so = sorted_order(keys, false);
    let o = pid_sorted(ps, idx);
    assert forall|a: int, b: int| 0 <= a < b < idx.len() implies ps[o[a] as int].pid <= ps[o[b] as int].pid by {
        let (j, k) = (ix(so[a]), ix(so[b]));
        assert(o[a] == idx[j] && o[b] == idx[k]);
        lemma_single_key(ps[o[a] as int].pid as u64, ps[o[b] as int].pid as u64, false);
    }
    lemma_reorder_permutes(idx, keys, false);
    assert forall|a: int| 0 <= a < idx.len() implies first_pid(ps, o) <= #[trigger] ps[idx[a] as int].pid by {
        assert(idx.contains(idx[a]));
        assert(o.contains(idx[a]));
        let k = choose|k: int| 0 <= k < o.len() && o[k] == idx[a];
        if k > 0 {
            assert(ps[o[0] as int].pid <= ps[o[k] as int].pid);
        }
    }
    if idx.len() > 0 {
        assert(o.contains(o[0]));
        assert(idx.contains(o[0]));
        let a = choose|a: int| 0 <= a < idx.len() && idx[a] == o[0];
        assert(first_pid(ps, o) == ps[idx[a] as int].pid);
    }
}

/// A group of several processes has a row keyed "grp:" and its name that opens and closes.
/// Open, it is followed by one row per process, keyed "pid:" and the PID and ending just
/// that process, in the group's order; closed, by nothing.
pub proof fn law_open_group_shows_members(ps: Seq<ProcessInfo>, g: GroupSpec, expanded: Set<Seq<char>>, total_memory: u64)
    requires
        g.members.len() > 1,
    ensures
        ({
            let key = "grp:"@ + g.name;
            let open = app_rows(ps, g, expanded.insert(key), total_memory);
            &&& app_row(ps, g, expanded, total_memory).key == key
            &&& app_row(ps, g, expanded, total_memory).toggle == Toggle::Expand
            &&& open.len() == 1 + g.members.len()
            &&& open[0].key == key
            &&& forall|k: int|
                0 <= k < g.members.len() ==> #[trigger] open[1 + k].key == pid_key(ps[g.members[k] as int].pid)
                    && open[1 + k].pids == seq![ps[g.members[k] as int].pid]
            &&& app_rows(ps, g, expanded.remove(key), total_memory).len() == 1
        }),
{
    let key = "grp:"@ + g.name;
    assert(app_key(ps, g) == key);
    assert(expanded.insert(key).contains(key));
    let open = app_rows(ps, g, expanded.insert(key), total_memory);
    assert forall|k: int| 0 <= k < g.members.len() implies #[trigger] open[1 + k].key == pid_key(
        ps[g.members[k] as int].pid,
    ) && open[1 + k].pids == seq![ps[g.members[k] as int].pid] by {
        assert(open[1 + k] == crate::grouped::child_row(ps[g.members[k] as int], true, total_memory));
    }
}

/// On the Users tab an open user's row is followed by one row per process of that user,
/// keyed "pid:" and the PID and ending just that process, in the order of the tab's sort
/// column (each process once); a closed user's row by nothing.
pub proof fn law_open_user_shows_processes(
    ps: Seq<ProcessInfo>,
    g: GroupSpec,
    sort: SortKey,
    desc: bool,
    expanded: Set<Seq<char>>,
    total_memory: u64,
)
    requires
        g.members.len() <= usize::MAX,
    ensures
        ({
            let key = "user:"@ + g.name;
            let o = sort_processes(ps, g.members, sort, desc);
            let open = user_rows(ps, g, sort, desc, expanded.insert(key), total_memory);
            &&& open.len() == 1 + g.members.len()
            &&& open[0].key == key
            &&& forall|i: usize| o.contains(i) <==> g.members.contains(i)
            &&& forall|k: int|
                0 <= k < g.members.len() ==> #[trigger] open[1 + k].key == pid_key(ps[o[k] as int].pid)
                    && open[1 + k].pids == seq![ps[o[k] as int].pid]
            &&& forall|k: int, l: int|
                0 <= k < l < g.members.len() ==> processes_in_column_order(ps[o[k] as int], ps[o[l] as int], sort, desc)
            &&& user_rows(ps, g, sort, desc, expanded.remove(key), total_memory).len() == 1
        }),
{
    let key = "user:"@ + g.name;
    assert(user_key(g) == key);
    assert(expanded.insert(key).contains(key));
    let o = sort_processes(ps, g.members, sort, desc);
    let keys = g.members.map_values(|i: usize| process_key(ps[i as int], sort));
    lemma_reorder_permutes(g.members, keys, desc);
    law_processes_sorted_by_column(ps, g.members, sort, desc);
    let open = user_rows(ps, g, sort, desc, expanded.insert(key), total_memory);
    assert forall|k: int| 0 <= k < g.members.len() implies #[trigger] open[1 + k].key == pid_key(ps[o[k] as int].pid)
        && open[1 + k].pids == seq![ps[o[k] as int].pid] by {
        assert(open[1 + k] == crate::grouped::child_row(ps[o[k] as int], false, total_memory));
    }
}

} // verus!
