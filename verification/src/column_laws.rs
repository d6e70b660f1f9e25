//! What sorting by a column shows on each tab, and what the table keys, the mouse wheel and
//! clicks on headers and rows do.
use crate::app::{
    body_click, column_sorts, cur_rows, first_column_hit, first_tab_hit, header_click, jumped, key_step, lemma_first_key,
    lemma_position_of, lemma_with_cur_twice, mouse_step, moved, next_sort, position_of, resynced, sorted_by, spec_build,
    spec_cycle_sort, spec_toggle_selected, toggled, ActionV, AppV, Areas, Key, KeyCode, Mouse, MouseKind, PopupV, TabV,
};
use crate::grouped::{ordered_groups, single_groups, split_background};
use crate::laws::{law_filter_matches, law_groups_partition, lemma_increasing_len};
use crate::groups::{
    first_pid, group_key, group_name, group_order, group_specs, lemma_runs_count, name_sorted, pid_sorted, GroupBy, GroupSpec,
};
use crate::keys::{ix, opt_text_key, text_key};
use crate::model::{
    all_indices, distinct_indices, idx_sum, lemma_group_sum_bounded, totals_fit, AppHistoryEntry, Measure, ProcessInfo, ServiceInfo,
    StartupAppInfo,
};
use crate::order::{in_order, lemma_single_key, lemma_sorted_order_exists, precedes, sorted_order};
use crate::tabs::{lemma_tab_index_roundtrip, SortKey, Tab, TAB_COUNT};
use crate::text::lowercase;
use crate::views::{
    filtered, history_key, history_names, history_row, history_view, lemma_reorder_permutes, process_key, process_names, reorder,
    service_key, service_row, service_texts, services_view, sort_processes, startup_key, startup_names, startup_row, startup_view,
};
use vstd::prelude::*;

verus! {

/// `x` may come before `y` in a column sorted ascending (`desc` false) or descending.
pub open spec fn in_direction(x: int, y: int, desc: bool) -> bool {
    if desc {
        x >= y
    } else {
        x <= y
    }
}

/// A stable sort lists the entries in the order of their keys.
pub proof fn lemma_reorder_in_order(idx: Seq<usize>, keys: Seq<Seq<u64>>, desc: bool)
    requires
        keys.len() == idx.len(),
        idx.len() <= usize::MAX,
    ensures
        reorder(idx, keys, desc).len() == idx.len(),
        forall|a: int|
            0 <= a < idx.len() ==> sorted_order(keys, desc)[a] < idx.len() && #[trigger] reorder(idx, keys, desc)[a]
                == idx[ix(sorted_order(keys, desc)[a])],
        forall|a: int, b: int|
            0 <= a < b < idx.len() ==> in_order(
                keys[ix(#[trigger] sorted_order(keys, desc)[a])],
                keys[ix(#[trigger] sorted_order(keys, desc)[b])],
                desc,
            ),
{
    lemma_sorted_order_exists(keys, desc);
    let so = sorted_order(keys, desc);
    assert forall|a: int, b: int| 0 <= a < b < idx.len() implies in_order(
        keys[ix(#[trigger] so[a])],
        keys[ix(#[trigger] so[b])],
        desc,
    ) by {
        assert(precedes(keys, desc, ix(so[a]), ix(so[b])));
    }
}

/// Two processes are in the order of a column: by PID, CPU share, memory or disk rate as
/// numbers, by name ignoring case, by status, or by user (no user first), as text.
pub open spec fn processes_in_column_order(p: ProcessInfo, q: ProcessInfo, key: SortKey, desc: bool) -> bool {
    match key {
        SortKey::Pid => in_direction(p.pid as int, q.pid as int, desc),
        SortKey::Cpu => in_direction(p.cpu_units as int, q.cpu_units as int, desc),
        SortKey::Memory => in_direction(p.memory as int, q.memory as int, desc),
        SortKey::Disk => in_direction(p.disk_bytes_per_sec as int, q.disk_bytes_per_sec as int, desc),
        SortKey::Name => in_order(text_key(lowercase(p.name@)), text_key(lowercase(q.name@)), desc),
        SortKey::Status => in_order(text_key(p.status@), text_key(q.status@), desc),
        SortKey::User => in_order(
            opt_text_key(
                match p.user_name {
                    None => None,
                    Some(u) => Some(u@),
                },
            ),
            opt_text_key(
                match q.user_name {
                    None => None,
                    Some(u) => Some(u@),
                },
            ),
            desc,
        ),
    }
}

/// Processes sorted by a column (the Details tab, a user's processes) come in that column's
/// order: for a numeric column, each process's value is at least (descending) or at most
/// (ascending) the next one's.
pub proof fn law_processes_sorted_by_column(ps: Seq<ProcessInfo>, idx: Seq<usize>, key: SortKey, desc: bool)
    requires
        idx.len() <= usize::MAX,
    ensures
        forall|a: int, b: int|
            0 <= a < b < idx.len() ==> processes_in_column_order(
                ps[sort_processes(ps, idx, key, desc)[a] as int],
                ps[sort_processes(ps, idx, key, desc)[b] as int],
                key,
                desc,
            ),
{
    let keys = idx.map_values(|i: usize| process_key(ps[i as int], key));
    lemma_reorder_in_order(idx, keys, desc);
    let so = sorted_order(keys, desc);
    let o = sort_processes(ps, idx, key, desc);
    assert forall|a: int, b: int| 0 <= a < b < idx.len() implies processes_in_column_order(
        ps[o[a] as int],
        ps[o[b] as int],
        key,
        desc,
    ) by {
        let (j, k) = (ix(so[a]), ix(so[b]));
        assert(o[a] == idx[j] && o[b] == idx[k]);
        assert(in_order(keys[j], keys[k], desc));
        let (p, q) = (ps[o[a] as int], ps[o[b] as int]);
        assert(keys[j] == process_key(p, key));
        assert(keys[k] == process_key(q, key));
        match key {
            SortKey::Pid => lemma_single_key(p.pid as u64, q.pid as u64, desc),
            SortKey::Cpu => lemma_single_key(p.cpu_units, q.cpu_units, desc),
            SortKey::Memory => lemma_single_key(p.memory, q.memory, desc),
            SortKey::Disk => lemma_single_key(p.disk_bytes_per_sec, q.disk_bytes_per_sec, desc),
            _ => {},
        }
    }
}

/// Two groups are in the order of a column: by their first (lowest) PID, or by their CPU,
/// memory or disk totals as numbers; by name ignoring case for the other columns.
pub open spec fn groups_in_column_order(ps: Seq<ProcessInfo>, g: GroupSpec, h: GroupSpec, key: SortKey, desc: bool) -> bool {
    match key {
        SortKey::Pid => in_direction(first_pid(ps, g.members) as int, first_pid(ps, h.members) as int, desc),
        SortKey::Cpu => in_direction(
            idx_sum(ps, g.members, Measure::Cpu) as int,
            idx_sum(ps, h.members, Measure::Cpu) as int,
            desc,
        ),
        SortKey::Memory => in_direction(
            idx_sum(ps, g.members, Measure::Memory) as int,
            idx_sum(ps, h.members, Measure::Memory) as int,
            desc,
        ),
        SortKey::Disk => in_direction(
            idx_sum(ps, g.members, Measure::Disk) as int,
            idx_sum(ps, h.members, Measure::Disk) as int,
            desc,
        ),
        _ => in_order(text_key(lowercase(g.name)), text_key(lowercase(h.name)), desc),
    }
}

/// Groups shown in a column's order (the Processes and Users tabs) come in that order: sorted
/// by Memory, say, each group's memory total is at least (descending) or at most (ascending)
/// the next group's.
pub proof fn law_groups_sorted_by_column(ps: Seq<ProcessInfo>, gs: Seq<GroupSpec>, key: SortKey, desc: bool)
    requires
        gs.len() <= usize::MAX,
        forall|g: int, m: Measure| 0 <= g < gs.len() ==> #[trigger] idx_sum(ps, gs[g].members, m) <= u64::MAX,
    ensures
        ordered_groups(ps, gs, key, desc).len() == gs.len(),
        forall|a: int, b: int|
            0 <= a < b < gs.len() ==> groups_in_column_order(
                ps,
                ordered_groups(ps, gs, key, desc)[a],
                ordered_groups(ps, gs, key, desc)[b],
                key,
                desc,
            ),
{
    let all = Seq::new(gs.len(), |i: int| i as usize);
    let keys = gs.map_values(|g: GroupSpec| group_key(ps, g, key));
    lemma_reorder_in_order(all, keys, desc);
    let so = sorted_order(keys, desc);
    let o = group_order(ps, gs, key, desc);
    let og = ordered_groups(ps, gs, key, desc);
    assert forall|a: int, b: int| 0 <= a < b < gs.len() implies groups_in_column_order(ps, og[a], og[b], key, desc) by {
        let (j, k) = (ix(so[a]), ix(so[b]));
        assert(o[a] == all[j] && o[b] == all[k]);
        assert(og[a] == gs[j] && og[b] == gs[k]);
        assert(in_order(keys[j], keys[k], desc));
        let (g, h) = (gs[j], gs[k]);
        match key {
            SortKey::Pid => lemma_single_key(first_pid(ps, g.members) as u64, first_pid(ps, h.members) as u64, desc),
            SortKey::Cpu => {
                assert(idx_sum(ps, g.members, Measure::Cpu) <= u64::MAX);
                assert(idx_sum(ps, h.members, Measure::Cpu) <= u64::MAX);
                lemma_single_key(
                    idx_sum(ps, g.members, Measure::Cpu) as u64,
                    idx_sum(ps, h.members, Measure::Cpu) as u64,
                    desc,
                );
            },
            SortKey::Memory => {
                assert(idx_sum(ps, g.members, Measure::Memory) <= u64::MAX);
                assert(idx_sum(ps, h.members, Measure::Memory) <= u64::MAX);
                lemma_single_key(
                    idx_sum(ps, g.members, Measure::Memory) as u64,
                    idx_sum(ps, h.members, Measure::Memory) as u64,
                    desc,
                );
            },
            SortKey::Disk => {
                assert(idx_sum(ps, g.members, Measure::Disk) <= u64::MAX);
                assert(idx_sum(ps, h.members, Measure::Disk) <= u64::MAX);
                lemma_single_key(
                    idx_sum(ps, g.members, Measure::Disk) as u64,
                    idx_sum(ps, h.members, Measure::Disk) as u64,
                    desc,
                );
            },
            _ => {},
        }
    }
}

/// Sorted by Status, the Startup apps tab lists every disabled app before every enabled one
/// (after, when descending): the shown apps' enabled flags go from off to on.
pub proof fn law_startup_sorted_by_status(xs: Seq<StartupAppInfo>, filter: Seq<char>, desc: bool)
    requires
        xs.len() <= usize::MAX,
    ensures
        ({
            let idx = filtered(startup_names(xs), filter);
            let order = reorder(idx, idx.map_values(|i: usize| startup_key(xs[i as int], SortKey::Status)), desc);
            &&& startup_view(xs, filter, SortKey::Status, desc).rows.len() == order.len()
            &&& forall|a: int, b: int|
                0 <= a < b < order.len() ==> if desc {
                    !(!xs[order[a] as int].enabled && xs[order[b] as int].enabled)
                } else {
                    !(xs[order[a] as int].enabled && !xs[order[b] as int].enabled)
                }
            &&& forall|a: int, b: int|
                0 <= a < b < order.len() ==> if desc {
                    !(startup_view(xs, filter, SortKey::Status, desc).rows[a].cells[2].text == "Disabled"@
                        && startup_view(xs, filter, SortKey::Status, desc).rows[b].cells[2].text == "Enabled"@)
                } else {
                    !(startup_view(xs, filter, SortKey::Status, desc).rows[a].cells[2].text == "Enabled"@
                        && startup_view(xs, filter, SortKey::Status, desc).rows[b].cells[2].text == "Disabled"@)
                }
        }),
{
    reveal_strlit("Enabled");
    reveal_strlit("Disabled");
    let idx = filtered(startup_names(xs), filter);
    law_filter_matches(startup_names(xs), filter);
    lemma_increasing_len(idx, xs.len() as int);
    let keys = idx.map_values(|i: usize| startup_key(xs[i as int], SortKey::Status));
    lemma_reorder_in_order(idx, keys, desc);
    let so = sorted_order(keys, desc);
    let order = reorder(idx, keys, desc);
    let v = startup_view(xs, filter, SortKey::Status, desc);
    assert forall|a: int, b: int| 0 <= a < b < order.len() implies if desc {
        !(!xs[order[a] as int].enabled && xs[order[b] as int].enabled)
    } else {
        !(xs[order[a] as int].enabled && !xs[order[b] as int].enabled)
    } by {
        let (j, k) = (ix(so[a]), ix(so[b]));
        assert(order[a] == idx[j] && order[b] == idx[k]);
        assert(in_order(keys[j], keys[k], desc));
        let (p, q) = (xs[order[a] as int], xs[order[b] as int]);
        lemma_single_key(if p.enabled { 1u64 } else { 0u64 }, if q.enabled { 1u64 } else { 0u64 }, desc);
    }
    assert forall|a: int, b: int| 0 <= a < b < order.len() implies if desc {
        !(v.rows[a].cells[2].text == "Disabled"@ && v.rows[b].cells[2].text == "Enabled"@)
    } else {
        !(v.rows[a].cells[2].text == "Enabled"@ && v.rows[b].cells[2].text == "Disabled"@)
    } by {
        let (p, q) = (xs[order[a] as int], xs[order[b] as int]);
        assert(v.rows[a].cells[2].text == (if p.enabled { "Enabled"@ } else { "Disabled"@ }));
        assert(v.rows[b].cells[2].text == (if q.enabled { "Enabled"@ } else { "Disabled"@ }));
    }
}

/// Two App history entries are in the order of a column: by name ignoring case, or by CPU
/// time as a number.
pub open spec fn history_in_column_order(e: AppHistoryEntry, f: AppHistoryEntry, key: SortKey, desc: bool) -> bool {
    match key {
        SortKey::Name => in_order(text_key(lowercase(e.name@)), text_key(lowercase(f.name@)), desc),
        _ => in_direction(e.cpu_millis as int, f.cpu_millis as int, desc),
    }
}

/// The App history tab shows one row per matching entry, in the order of the sort column:
/// sorted by CPU time, each entry's time is at least (descending) or at most (ascending) the
/// next one's.
pub proof fn law_history_sorted_by_column(es: Seq<AppHistoryEntry>, filter: Seq<char>, key: SortKey, desc: bool)
    requires
        es.len() <= usize::MAX,
    ensures
        ({
            let idx = filtered(history_names(es), filter);
            let order = reorder(idx, idx.map_values(|i: usize| history_key(es[i as int], key)), desc);
            let v = history_view(es, filter, key, desc);
            &&& v.rows.len() == order.len()
            &&& forall|a: int|
                0 <= a < order.len() ==> order[a] < es.len() && #[trigger] v.rows[a] == history_row(es[order[a] as int])
            &&& forall|a: int, b: int|
                0 <= a < b < order.len() ==> history_in_column_order(es[order[a] as int], es[order[b] as int], key, desc)
        }),
{
    let idx = filtered(history_names(es), filter);
    law_filter_matches(history_names(es), filter);
    lemma_increasing_len(idx, es.len() as int);
    let keys = idx.map_values(|i: usize| history_key(es[i as int], key));
    lemma_reorder_in_order(idx, keys, desc);
    let so = sorted_order(keys, desc);
    let order = reorder(idx, keys, desc);
    assert forall|a: int| 0 <= a < order.len() implies order[a] < es.len() by {
        assert(order[a] == idx[ix(so[a])]);
    }
    assert forall|a: int, b: int| 0 <= a < b < order.len() implies history_in_column_order(
        es[order[a] as int],
        es[order[b] as int],
        key,
        desc,
    ) by {
        let (j, k) = (ix(so[a]), ix(so[b]));
        assert(order[a] == idx[j] && order[b] == idx[k]);
        assert(in_order(keys[j], keys[k], desc));
        let (e, f) = (es[order[a] as int], es[order[b] as int]);
        if key != SortKey::Name {
            lemma_single_key(e.cpu_millis, f.cpu_millis, desc);
        }
    }
}

/// Two startup apps are in the order of a column: by status, disabled before enabled (after,
/// when descending), or by name ignoring case.
pub open spec fn startup_in_column_order(x: StartupAppInfo, y: StartupAppInfo, key: SortKey, desc: bool) -> bool {
    match key {
        SortKey::Status => if desc {
            !(!x.enabled && y.enabled)
        } else {
            !(x.enabled && !y.enabled)
        },
        _ => in_order(text_key(lowercase(x.name@)), text_key(lowercase(y.name@)), desc),
    }
}

/// The Startup apps tab shows one row per matching app, in the order of the sort column.
pub proof fn law_startup_sorted_by_column(xs: Seq<StartupAppInfo>, filter: Seq<char>, key: SortKey, desc: bool)
    requires
        xs.len() <= usize::MAX,
    ensures
        ({
            let idx = filtered(startup_names(xs), filter);
            let order = reorder(idx, idx.map_values(|i: usize| startup_key(xs[i as int], key)), desc);
            let v = startup_view(xs, filter, key, desc);
            &&& v.rows.len() == order.len()
            &&& forall|a: int|
                0 <= a < order.len() ==> order[a] < xs.len() && #[trigger] v.rows[a] == startup_row(xs[order[a] as int])
            &&& forall|a: int, b: int|
                0 <= a < b < order.len() ==> startup_in_column_order(xs[order[a] as int], xs[order[b] as int], key, desc)
        }),
{
    let idx = filtered(startup_names(xs), filter);
    law_filter_matches(startup_names(xs), filter);
    lemma_increasing_len(idx, xs.len() as int);
    let keys = idx.map_values(|i: usize| startup_key(xs[i as int], key));
    lemma_reorder_in_order(idx, keys, desc);
    let so = sorted_order(keys, desc);
    let order = reorder(idx, keys, desc);
    assert forall|a: int| 0 <= a < order.len() implies order[a] < xs.len() by {
        assert(order[a] == idx[ix(so[a])]);
    }
    assert forall|a: int, b: int| 0 <= a < b < order.len() implies startup_in_column_order(
        xs[order[a] as int],
        xs[order[b] as int],
        key,
        desc,
    ) by {
        let (j, k) = (ix(so[a]), ix(so[b]));
        assert(order[a] == idx[j] && order[b] == idx[k]);
        assert(in_order(keys[j], keys[k], desc));
        let (x, y) = (xs[order[a] as int], xs[order[b] as int]);
        if key == SortKey::Status {
            lemma_single_key(if x.enabled { 1u64 } else { 0u64 }, if y.enabled { 1u64 } else { 0u64 }, desc);
        }
    }
}

/// Two services are in the order of a column: by status text, or by name ignoring case.
pub open spec fn service_in_column_order(x: ServiceInfo, y: ServiceInfo, key: SortKey, desc: bool) -> bool {
    match key {
        SortKey::Status => in_order(text_key(x.status@), text_key(y.status@), desc),
        _ => in_order(text_key(lowercase(x.name@)), text_key(lowercase(y.name@)), desc),
    }
}

/// The Services tab shows one row per matching service, in the order of the sort column.
pub proof fn law_services_sorted_by_column(xs: Seq<ServiceInfo>, filter: Seq<char>, key: SortKey, desc: bool)
    requires
        xs.len() <= usize::MAX,
    ensures
        ({
            let idx = filtered(service_texts(xs), filter);
            let order = reorder(idx, idx.map_values(|i: usize| service_key(xs[i as int], key)), desc);
            let v = services_view(xs, filter, key, desc);
            &&& v.rows.len() == order.len()
            &&& forall|a: int|
                0 <= a < order.len() ==> order[a] < xs.len() && #[trigger] v.rows[a] == service_row(xs[order[a] as int])
            &&& forall|a: int, b: int|
                0 <= a < b < order.len() ==> service_in_column_order(xs[order[a] as int], xs[order[b] as int], key, desc)
        }),
{
    let idx = filtered(service_texts(xs), filter);
    law_filter_matches(service_texts(xs), filter);
    lemma_increasing_len(idx, xs.len() as int);
    let keys = idx.map_values(|i: usize| service_key(xs[i as int], key));
    lemma_reorder_in_order(idx, keys, desc);
    let so = sorted_order(keys, desc);
    let order = reorder(idx, keys, desc);
    assert forall|a: int| 0 <= a < order.len() implies order[a] < xs.len() by {
        assert(order[a] == idx[ix(so[a])]);
    }
    assert forall|a: int, b: int| 0 <= a < b < order.len() implies service_in_column_order(
        xs[order[a] as int],
        xs[order[b] as int],
        key,
        desc,
    ) by {
        let (j, k) = (ix(so[a]), ix(so[b]));
        assert(order[a] == idx[j] && order[b] == idx[k]);
        assert(in_order(keys[j], keys[k], desc));
    }
}

/// Up (or k) moves the selection one row up, Down (or j) one row down, stopping at the first
/// and last rows. The selection is the row whose key is remembered (its first occurrence).
pub proof fn law_arrow_keys_move_by_one(a: AppV, i: int, page: int, now: u64)
    requires
        a.wf(),
        a.popup is None,
        !a.editing_filter,
        cur_rows(a).len() <= usize::MAX,
        0 <= i < cur_rows(a).len(),
        a.cur().selected_key == Some(cur_rows(a)[i].key),
        forall|j: int| 0 <= j < i ==> cur_rows(a)[j].key != cur_rows(a)[i].key,
    ensures
        ({
            let up = if i > 0 {
                i - 1
            } else {
                0
            };
            let down = if i + 1 < cur_rows(a).len() {
                i + 1
            } else {
                i
            };
            &&& key_step(a, Key { code: KeyCode::Up, ctrl: false }, page, now).0.cur().table.selected == Some(up as usize)
            &&& key_step(a, Key { code: KeyCode::Char('k'), ctrl: false }, page, now).0.cur().table.selected == Some(
                up as usize,
            )
            &&& key_step(a, Key { code: KeyCode::Down, ctrl: false }, page, now).0.cur().table.selected == Some(
                down as usize,
            )
            &&& key_step(a, Key { code: KeyCode::Char('j'), ctrl: false }, page, now).0.cur().table.selected == Some(
                down as usize,
            )
            &&& key_step(a, Key { code: KeyCode::Up, ctrl: false }, page, now).0.cur().selected_key == Some(
                cur_rows(a)[up].key,
            )
            &&& key_step(a, Key { code: KeyCode::Down, ctrl: false }, page, now).0.cur().selected_key == Some(
                cur_rows(a)[down].key,
            )
            &&& key_step(a, Key { code: KeyCode::Up, ctrl: false }, page, now).1 == ActionV::Nothing
            &&& key_step(a, Key { code: KeyCode::Down, ctrl: false }, page, now).1 == ActionV::Nothing
        }),
{
    reveal(moved);
    let rows = cur_rows(a);
    lemma_first_key(rows, rows[i].key);
    assert(crate::app::first_key(rows, rows[i].key) == Some(i));
    assert(0 <= a.tab.spec_index() < TAB_COUNT);
}

/// PageDown moves the selection a page of rows down and PageUp a page up, stopping at the
/// last and first rows; Home (or g) selects the first row and End (or G) the last.
pub proof fn law_page_and_jump_keys(a: AppV, i: int, page: int, now: u64)
    requires
        a.wf(),
        a.popup is None,
        !a.editing_filter,
        cur_rows(a).len() <= usize::MAX,
        0 <= i < cur_rows(a).len(),
        a.cur().selected_key == Some(cur_rows(a)[i].key),
        forall|j: int| 0 <= j < i ==> cur_rows(a)[j].key != cur_rows(a)[i].key,
        1 <= page <= isize::MAX,
    ensures
        ({
            let last = cur_rows(a).len() - 1;
            let down = if i + page < last {
                i + page
            } else {
                last
            };
            let up = if i - page > 0 {
                i - page
            } else {
                0
            };
            &&& key_step(a, Key { code: KeyCode::PageDown, ctrl: false }, page, now).0.cur().table.selected == Some(
                down as usize,
            )
            &&& key_step(a, Key { code: KeyCode::PageUp, ctrl: false }, page, now).0.cur().table.selected == Some(
                up as usize,
            )
            &&& key_step(a, Key { code: KeyCode::Home, ctrl: false }, page, now).0.cur().table.selected == Some(0usize)
            &&& key_step(a, Key { code: KeyCode::Char('g'), ctrl: false }, page, now).0.cur().table.selected == Some(
                0usize,
            )
            &&& key_step(a, Key { code: KeyCode::End, ctrl: false }, page, now).0.cur().table.selected == Some(
                last as usize,
            )
            &&& key_step(a, Key { code: KeyCode::Char('G'), ctrl: false }, page, now).0.cur().table.selected == Some(
                last as usize,
            )
            &&& key_step(a, Key { code: KeyCode::PageDown, ctrl: false }, page, now).0.cur().selected_key == Some(
                cur_rows(a)[down].key,
            )
            &&& key_step(a, Key { code: KeyCode::End, ctrl: false }, page, now).0.cur().selected_key == Some(
                cur_rows(a)[last].key,
            )
        }),
{
    reveal(moved);
    reveal(jumped);
    let rows = cur_rows(a);
    lemma_first_key(rows, rows[i].key);
    assert(crate::app::first_key(rows, rows[i].key) == Some(i));
    assert(0 <= a.tab.spec_index() < TAB_COUNT);
}

/// The table keys: Tab and Shift+Tab go to the next and previous tab (wrapping around), a
/// digit from 1 to 7 goes to that tab, S reverses the sort direction and keeps the column,
/// q quits, ? and F1 open the help, Esc clears the filter, / and f start typing a filter
/// (not on the Performance tab), and r asks to reset the App history or reload the Startup
/// and Services lists.
pub proof fn law_table_keys(a: AppV, digit: char, page: int, now: u64)
    requires
        a.wf(),
        a.popup is None,
        !a.editing_filter,
    ensures
        ({
            let step = |code: KeyCode| key_step(a, Key { code, ctrl: false }, page, now);
            let at = a.tab.spec_index();
            &&& step(KeyCode::Tab).0.tab.spec_index() == (at + 1) % (TAB_COUNT as int)
            &&& step(KeyCode::BackTab).0.tab.spec_index() == (at + TAB_COUNT - 1) % (TAB_COUNT as int)
            &&& step(KeyCode::Tab).0.tabs == a.tabs && step(KeyCode::BackTab).0.tabs == a.tabs
            &&& ('1' <= digit <= '7' ==> step(KeyCode::Char(digit)).0.tab.spec_index() == (digit as int) - ('1' as int)
                && step(KeyCode::Char(digit)).0.tabs == a.tabs)
            &&& step(KeyCode::Char('S')).0.tab == a.tab
            &&& step(KeyCode::Char('S')).0.cur().desc == !a.cur().desc
            &&& step(KeyCode::Char('S')).0.cur().sort == a.cur().sort
            &&& step(KeyCode::Char('S')).0.cur().filter == a.cur().filter
            &&& step(KeyCode::Char('q')).0.should_quit
            &&& step(KeyCode::Char('?')).0.popup == Some(PopupV::Help)
            &&& step(KeyCode::F(1)).0.popup == Some(PopupV::Help)
            &&& step(KeyCode::Esc).0.tab == a.tab && step(KeyCode::Esc).0.cur().filter.len() == 0
            &&& step(KeyCode::Esc).0.cur().sort == a.cur().sort
            &&& (a.tab != Tab::Performance ==> step(KeyCode::Char('/')).0.editing_filter
                && step(KeyCode::Char('f')).0.editing_filter)
            &&& (a.tab == Tab::Performance ==> step(KeyCode::Char('/')).0 == a)
            &&& (a.tab == Tab::AppHistory ==> step(KeyCode::Char('r')) == (a, ActionV::ResetAppHistory))
            &&& (a.tab == Tab::Services || a.tab == Tab::Startup ==> step(KeyCode::Char('r')) == (a, ActionV::ReloadLists))
        }),
{
    let at = a.tab.spec_index();
    assert(0 <= at < TAB_COUNT);
    lemma_tab_index_roundtrip(a.tab, (at + 1) % (TAB_COUNT as int));
    lemma_tab_index_roundtrip(a.tab, (at + TAB_COUNT - 1) % (TAB_COUNT as int));
    assert((at + (-1)) % (TAB_COUNT as int) == (at + TAB_COUNT - 1) % (TAB_COUNT as int));
    if '1' <= digit <= '7' {
        lemma_tab_index_roundtrip(a.tab, (digit as int) - ('1' as int));
    }
    let t = TabV { desc: !a.cur().desc, ..a.cur() };
    lemma_with_cur_twice(a, t, t);
    let f = TabV { filter: Seq::empty(), ..a.cur() };
    lemma_with_cur_twice(a, f, f);
}

/// `k` stands at position `i` of `keys` and nowhere before it.
pub open spec fn first_position(keys: Seq<SortKey>, k: SortKey, i: int) -> bool {
    &&& 0 <= i < keys.len()
    &&& keys[i] == k
    &&& forall|j: int| 0 <= j < i ==> keys[j] != k
}

proof fn lemma_next_sort(keys: Seq<SortKey>, cur: SortKey)
    ensures
        forall|i: int| #[trigger] first_position(keys, cur, i) ==> next_sort(keys, cur) == keys[(i + 1) % (keys.len() as int)],
        (keys.len() > 0 && forall|j: int| 0 <= j < keys.len() ==> keys[j] != cur) ==> next_sort(keys, cur) == keys[0],
{
    lemma_position_of(keys, cur);
    assert forall|i: int| #[trigger] first_position(keys, cur, i) implies next_sort(keys, cur) == keys[(i + 1) % (
    keys.len() as int)] by {
        let p = position_of(keys, cur)->0;
        if p < i {
            assert(keys[p] == cur);
        } else if i < p {
            assert(keys[i] == cur);
        }
    }
}

proof fn lemma_cycle_sort(a: AppV)
    requires
        a.tabs.len() == TAB_COUNT,
    ensures
        spec_cycle_sort(a).tab == a.tab,
        column_sorts(spec_build(a, a.tab).columns).len() > 0 ==> spec_cycle_sort(a).cur() == sorted_by(
            a.cur(),
            next_sort(column_sorts(spec_build(a, a.tab).columns), a.cur().sort),
        ),
        column_sorts(spec_build(a, a.tab).columns).len() == 0 ==> spec_cycle_sort(a) == a,
{
    reveal(spec_cycle_sort);
    let keys = column_sorts(spec_build(a, a.tab).columns);
    if keys.len() > 0 {
        let t = sorted_by(a.cur(), next_sort(keys, a.cur().sort));
        lemma_with_cur_twice(a, t, t);
    }
}

/// s moves the sort to the next sortable column of the current tab (those of the tab's
/// columns that sort, in order), wrapping around from the last to the first, and to the first
/// when the current column is not among them. A move to
/// another column starts descending for CPU, memory and disk and ascending for the rest; on a
/// tab with a single sortable column the direction reverses. The filter stays; a tab without
/// sortable columns does not change.
/// s moves the sort to the next sortable column of the current tab (those of the tab's
/// columns that sort, in order), wrapping around from the last to the first, and to the first
/// when the current column is not among them. A move to
/// another column starts descending for CPU, memory and disk and ascending for the rest; on a
/// tab with a single sortable column the direction reverses. The filter stays; a tab without
/// sortable columns does not change.
pub proof fn law_s_cycles_sort(a: AppV, page: int, now: u64)
    requires
        a.wf(),
        a.popup is None,
        !a.editing_filter,
    ensures
        ({
            let keys = column_sorts(spec_build(a, a.tab).columns);
            let b = key_step(a, Key { code: KeyCode::Char('s'), ctrl: false }, page, now).0;
            &&& keys.len() == 0 ==> b == a
            &&& forall|i: int|
                #[trigger] first_position(keys, a.cur().sort, i) ==> b.cur().sort == keys[(i + 1) % (keys.len() as int)]
            &&& (keys.len() > 0 && forall|j: int| 0 <= j < keys.len() ==> keys[j] != a.cur().sort) ==> b.cur().sort
                == keys[0]
            &&& keys.len() > 0 ==> b.cur().desc == if b.cur().sort == a.cur().sort {
                !a.cur().desc
            } else {
                b.cur().sort == SortKey::Cpu || b.cur().sort == SortKey::Memory || b.cur().sort == SortKey::Disk
            }
            &&& b.tab == a.tab
            &&& b.cur().filter == a.cur().filter
        }),
{
    let keys = column_sorts(spec_build(a, a.tab).columns);
    assert(key_step(a, Key { code: KeyCode::Char('s'), ctrl: false }, page, now).0 == spec_cycle_sort(a));
    lemma_cycle_sort(a);
    lemma_next_sort(keys, a.cur().sort);
}

/// A left click on the row that is already selected does what Enter does: it opens or closes
/// that row (a group, a section); a click on another row selects it.
pub proof fn law_click_selected_row_toggles(a: AppV, areas: Areas, column: u16, row: u16, page: int, now: u64)
    requires
        a.wf(),
        a.popup is None,
        !a.editing_filter,
        cur_rows(a).len() <= usize::MAX,
        first_tab_hit(areas.tabs@, column, row) is None,
        !areas.table_header.spec_contains(column, row),
        areas.table_body.spec_contains(column, row),
        resynced(a).cur().table.offset + (row - areas.table_body.y) < cur_rows(a).len(),
    ensures
        ({
            let idx = resynced(a).cur().table.offset + (row - areas.table_body.y);
            let click = mouse_step(a, areas, Mouse { kind: MouseKind::LeftDown, column, row });
            &&& resynced(a).cur().table.selected == Some(idx as usize) ==> click == key_step(
                a,
                Key { code: KeyCode::Enter, ctrl: false },
                page,
                now,
            ).0
            &&& resynced(a).cur().table.selected == Some(idx as usize) ==> click == toggled(
                resynced(a),
                cur_rows(a)[idx],
                None,
            )
            &&& resynced(a).cur().table.selected != Some(idx as usize) ==> click.cur().table.selected == Some(
                idx as usize,
            ) && click.cur().selected_key == Some(cur_rows(a)[idx].key) && click.expanded == a.expanded
                && click.collapsed == a.collapsed
        }),
{
    reveal(body_click);
    reveal(spec_toggle_selected);
    let rows = cur_rows(a);
    let a1 = resynced(a);
    assert(0 <= a.tab.spec_index() < TAB_COUNT);
    assert(a1.cur() == crate::app::synced(a.cur(), rows));
}

proof fn lemma_column_hit_at(cols: Seq<crate::app::Rect>, column: u16, i: int)
    requires
        0 <= i < cols.len(),
        cols[i].x <= column < cols[i].x + cols[i].width,
        forall|j: int| #![trigger cols[j]] 0 <= j < i ==> !(cols[j].x <= column < cols[j].x + cols[j].width),
    ensures
        first_column_hit(cols, column) == Some(i),
    decreases cols.len(),
{
    let init = cols.drop_last();
    if i < cols.len() - 1 {
        assert forall|j: int| 0 <= j <= i implies init[j] == cols[j] by {}
        lemma_column_hit_at(init, column, i);
    } else {
        lemma_no_column_hit(init, column);
    }
}

proof fn lemma_no_column_hit(cols: Seq<crate::app::Rect>, column: u16)
    requires
        forall|j: int| #![trigger cols[j]] 0 <= j < cols.len() ==> !(cols[j].x <= column < cols[j].x + cols[j].width),
    ensures
        first_column_hit(cols, column) is None,
    decreases cols.len(),
{
    if cols.len() > 0 {
        let init = cols.drop_last();
        assert forall|j: int| #![trigger init[j]] 0 <= j < init.len() implies !(init[j].x <= column < init[j].x + init[j].width) by {
            assert(init[j] == cols[j]);
        }
        lemma_no_column_hit(init, column);
    }
}

/// A left click on a column's header sorts the current tab by that column: a click on the
/// column it is sorted by reverses the direction; another column starts descending for CPU,
/// memory and disk and ascending for the rest. The filter stays. A click on a header without
/// a sort column changes nothing.
pub proof fn law_header_click_sorts(a: AppV, areas: Areas, column: u16, row: u16, i: int)
    requires
        a.wf(),
        a.popup is None,
        first_tab_hit(areas.tabs@, column, row) is None,
        areas.table_header.spec_contains(column, row),
        0 <= i < areas.header_columns@.len(),
        i < spec_build(a, a.tab).columns.len(),
        areas.header_columns@[i].x <= column < areas.header_columns@[i].x + areas.header_columns@[i].width,
        forall|j: int|
            #![trigger areas.header_columns@[j]]
            0 <= j < i ==> !(areas.header_columns@[j].x <= column < areas.header_columns@[j].x
                + areas.header_columns@[j].width),
    ensures
        ({
            let click = mouse_step(a, areas, Mouse { kind: MouseKind::LeftDown, column, row });
            match spec_build(a, a.tab).columns[i].sort {
                Some(k) => {
                    &&& click.tab == a.tab
                    &&& click.cur().sort == k
                    &&& click.cur().desc == if a.cur().sort == k {
                        !a.cur().desc
                    } else {
                        k == SortKey::Cpu || k == SortKey::Memory || k == SortKey::Disk
                    }
                    &&& click.cur().filter == a.cur().filter
                },
                None => click == a,
            }
        }),
{
    reveal(header_click);
    lemma_column_hit_at(areas.header_columns@, column, i);
    match spec_build(a, a.tab).columns[i].sort {
        Some(k) => {
            let t = sorted_by(a.cur(), k);
            lemma_with_cur_twice(a, t, t);
        },
        None => {},
    }
}

/// A left click on a tab in the tab bar goes to that tab and stops any filter typing, each
/// tab keeping its own state; while a dialog is open the mouse changes nothing.
pub proof fn law_tab_click_and_dialog(a: AppV, areas: Areas, m: Mouse, t: Tab)
    ensures
        (a.popup is None && m.kind == MouseKind::LeftDown && first_tab_hit(areas.tabs@, m.column, m.row) == Some(t))
            ==> mouse_step(a, areas, m).tab == t && !mouse_step(a, areas, m).editing_filter && mouse_step(a, areas, m).tabs
            == a.tabs,
        a.popup is Some ==> mouse_step(a, areas, m) == a,
{
}

/// Scrolling the mouse wheel moves the selection three rows down or up, stopping at the last
/// and first rows.
pub proof fn law_scroll_moves_three(a: AppV, areas: Areas, column: u16, row: u16, i: int)
    requires
        a.wf(),
        a.popup is None,
        cur_rows(a).len() <= usize::MAX,
        0 <= i < cur_rows(a).len(),
        a.cur().selected_key == Some(cur_rows(a)[i].key),
        forall|j: int| 0 <= j < i ==> cur_rows(a)[j].key != cur_rows(a)[i].key,
    ensures
        ({
            let last = cur_rows(a).len() - 1;
            let down = if i + 3 < last {
                i + 3
            } else {
                last
            };
            let up = if i - 3 > 0 {
                i - 3
            } else {
                0
            };
            &&& mouse_step(a, areas, Mouse { kind: MouseKind::ScrollDown, column, row }).cur().table.selected == Some(
                down as usize,
            )
            &&& mouse_step(a, areas, Mouse { kind: MouseKind::ScrollUp, column, row }).cur().table.selected == Some(
                up as usize,
            )
        }),
{
    reveal(moved);
    let rows = cur_rows(a);
    lemma_first_key(rows, rows[i].key);
    assert(crate::app::first_key(rows, rows[i].key) == Some(i));
    assert(0 <= a.tab.spec_index() < TAB_COUNT);
}

proof fn lemma_group_sums_fit(ps: Seq<ProcessInfo>, idx: Seq<usize>, by: GroupBy)
    requires
        totals_fit(ps),
        ps.len() <= usize::MAX,
        distinct_indices(idx, ps.len()),
        idx.len() <= usize::MAX,
    ensures
        group_specs(ps, idx, by).len() <= usize::MAX,
        forall|g: int, m: Measure|
            0 <= g < group_specs(ps, idx, by).len() ==> #[trigger] idx_sum(ps, group_specs(ps, idx, by)[g].members, m)
                <= u64::MAX,
{
    let gs = group_specs(ps, idx, by);
    let n = name_sorted(ps, idx, by);
    let nkeys = idx.map_values(|i: usize| text_key(group_name(ps[i as int], by)));
    lemma_reorder_permutes(idx, nkeys, false);
    lemma_runs_count(n, ps, by);
    law_groups_partition(ps, idx, by);
    assert forall|g: int, m: Measure| 0 <= g < gs.len() implies #[trigger] idx_sum(ps, gs[g].members, m) <= u64::MAX by {
        let mem = gs[g].members;
        assert forall|a: int| 0 <= a < mem.len() implies #[trigger] mem[a] < ps.len() by {
            assert(mem.contains(mem[a]));
            assert(exists|h: int| 0 <= h < gs.len() && #[trigger] gs[h].members.contains(mem[a]));
            assert(idx.contains(mem[a]));
        }
        assert(distinct_indices(mem, ps.len()));
        lemma_group_sum_bounded(ps, mem, m);
        assert(idx_sum(ps, all_indices(ps.len()), m) <= u64::MAX);
    }
}

proof fn lemma_split_increasing(ps: Seq<ProcessInfo>, idx: Seq<usize>, want: bool, n: int)
    requires
        forall|a: int, b: int| 0 <= a < b < idx.len() ==> idx[a] < idx[b],
        forall|a: int| 0 <= a < idx.len() ==> idx[a] < n,
    ensures
        forall|a: int, b: int|
            0 <= a < b < split_background(ps, idx, want).len() ==> split_background(ps, idx, want)[a]
                < split_background(ps, idx, want)[b],
        forall|a: int| 0 <= a < split_background(ps, idx, want).len() ==> split_background(ps, idx, want)[a] < n,
        forall|a: int|
            0 <= a < split_background(ps, idx, want).len() ==> idx.len() > 0 && split_background(ps, idx, want)[a]
                <= idx.last(),
    decreases idx.len(),
{
    if idx.len() > 0 {
        let init = idx.drop_last();
        lemma_split_increasing(ps, init, want, n);
        let rest = split_background(ps, init, want);
        let out = split_background(ps, idx, want);
        let x = idx.last();
        assert(x == idx[idx.len() - 1]);
        if init.len() > 0 {
            assert(init.last() == idx[idx.len() - 2]);
            assert(init.last() < x);
        }
        assert forall|a: int| 0 <= a < rest.len() implies rest[a] < x by {}
        assert forall|a: int, b: int| 0 <= a < b < out.len() implies out[a] < out[b] by {
            assert(out[a] == rest[a]);
            if b < rest.len() {
                assert(out[b] == rest[b]);
            } else {
                assert(out[b] == x);
            }
        }
        assert forall|a: int| 0 <= a < out.len() implies out[a] < n && out[a] <= x by {
            if a < rest.len() {
                assert(out[a] == rest[a]);
            } else {
                assert(out[a] == x);
            }
        }
    }
}

/// On the Processes tab the app groups, and the background processes, come in the order of
/// the sort column: sorted by Memory, say, each group's memory total is at least
/// (descending) or at most (ascending) the next one's.
pub proof fn law_processes_tab_sorted_by_column(ps: Seq<ProcessInfo>, filter: Seq<char>, sort: SortKey, desc: bool)
    requires
        totals_fit(ps),
        ps.len() <= usize::MAX,
    ensures
        ({
            let idx = filtered(process_names(ps), filter);
            let apps = ordered_groups(
                ps,
                group_specs(ps, split_background(ps, idx, false), GroupBy::Name),
                sort,
                desc,
            );
            let bgs = ordered_groups(ps, single_groups(ps, split_background(ps, idx, true)), sort, desc);
            &&& forall|a: int, b: int| 0 <= a < b < apps.len() ==> groups_in_column_order(ps, apps[a], apps[b], sort, desc)
            &&& forall|a: int, b: int| 0 <= a < b < bgs.len() ==> groups_in_column_order(ps, bgs[a], bgs[b], sort, desc)
        }),
{
    let names = process_names(ps);
    let idx = filtered(names, filter);
    law_filter_matches(names, filter);
    lemma_increasing_len(idx, ps.len() as int);
    let fg = split_background(ps, idx, false);
    let bg = split_background(ps, idx, true);
    lemma_split_increasing(ps, idx, false, ps.len() as int);
    lemma_split_increasing(ps, idx, true, ps.len() as int);
    lemma_increasing_len(fg, ps.len() as int);
    lemma_increasing_len(bg, ps.len() as int);
    assert(distinct_indices(fg, ps.len())) by {
        assert forall|a: int, b: int| 0 <= a < b < fg.len() implies fg[a] != fg[b] by {}
    }
    lemma_group_sums_fit(ps, fg, GroupBy::Name);
    law_groups_sorted_by_column(ps, group_specs(ps, fg, GroupBy::Name), sort, desc);
    let singles = single_groups(ps, bg);
    assert forall|g: int, m: Measure| 0 <= g < singles.len() implies #[trigger] idx_sum(ps, singles[g].members, m)
        <= u64::MAX by {
        let i = bg[g];
        let mem = singles[g].members;
        let pkeys = seq![i].map_values(|j: usize| seq![ps[j as int].pid as u64]);
        lemma_reorder_permutes(seq![i], pkeys, false);
        assert(mem == pid_sorted(ps, seq![i]));
        assert(mem.len() == 1);
        assert(mem.contains(mem[0]));
        assert(seq![i].contains(mem[0]));
        assert(mem[0] == i);
        assert(distinct_indices(mem, ps.len()));
        lemma_group_sum_bounded(ps, mem, m);
        assert(idx_sum(ps, all_indices(ps.len()), m) <= u64::MAX);
    }
    law_groups_sorted_by_column(ps, singles, sort, desc);
}

/// On the Users tab the users come in the order of the sort column: sorted by Memory, say,
/// each user's memory total is at least (descending) or at most (ascending) the next one's.
pub proof fn law_users_tab_sorted_by_column(ps: Seq<ProcessInfo>, filter: Seq<char>, sort: SortKey, desc: bool)
    requires
        totals_fit(ps),
        ps.len() <= usize::MAX,
    ensures
        ({
            let idx = filtered(process_names(ps), filter);
            let users = ordered_groups(ps, group_specs(ps, idx, GroupBy::User), sort, desc);
            forall|a: int, b: int| 0 <= a < b < users.len() ==> groups_in_column_order(ps, users[a], users[b], sort, desc)
        }),
{
    let names = process_names(ps);
    let idx = filtered(names, filter);
    law_filter_matches(names, filter);
    lemma_increasing_len(idx, ps.len() as int);
    assert(distinct_indices(idx, ps.len())) by {
        assert forall|a: int, b: int| 0 <= a < b < idx.len() implies idx[a] != idx[b] by {}
    }
    lemma_group_sums_fit(ps, idx, GroupBy::User);
    law_groups_sorted_by_column(ps, group_specs(ps, idx, GroupBy::User), sort, desc);
}

} // verus!
