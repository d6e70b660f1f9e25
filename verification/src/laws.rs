//! Properties that hold across the task manager's operations.
use crate::app::{first_tab_hit, key_step, ActionV, Key, KeyCode, PopupV, Rect, cur_rows, moved, sat_add_signed, selected_at, spec_build, spec_cycle_tab, synced, sorted_by, toggled, first_key, AppV, TabV};
use crate::cli::{parse_args_spec, Command, DEFAULT_INTERVAL_MS, MIN_INTERVAL_MS};
use crate::app::{lemma_first_key, HISTORY_LEN};
use crate::history::last_n;
use crate::keys::ix;
use crate::order::{in_order, key_before, lemma_key_order, lemma_sorted_order_exists, precedes, sorted_order};
use crate::groups::{
    group_key, group_order, lemma_runs_count, GroupSpec, group_name, group_specs, lemma_runs, lemma_runs_ascending, lemma_runs_partition, name_key, name_sorted, pid_sorted, runs,
    GroupBy,
};
use crate::keys::text_key;
use crate::model::{distinct_indices, survivors, ProcessInfo};
use crate::screen::{lemma_tab_widths, tab_bar_areas, tab_bar_width, tab_title_text, tabs_width_before, TITLE_WIDTH};
use crate::tabs::{tab_at, SortKey, Tab, TAB_COUNT};
use crate::grouped::{
    concat_rows, ordered_groups, processes_view, section_row, section_rows, single_groups, split_background, user_row,
    user_rows, users_view,
};
use crate::format::digits;
use crate::text::{contains, escape_text, is_braille, lowercase, spec_is_background};
use crate::views::{matches_filter, lemma_reorder_permutes, details_row, details_view, filtered, process_key, process_names, sort_processes, RowSpec, Toggle};
use vstd::prelude::*;

verus! {

/// Sorting by a column leaves the table sorted by it; sorting by the same column again shows
/// it in the other direction, and when the table was already sorted by that column, doing it
/// twice gives back the table as it was.
pub proof fn law_sort_same_column_twice(t: TabV, key: SortKey)
    ensures
        sorted_by(t, key).sort == key,
        sorted_by(sorted_by(t, key), key).sort == key,
        sorted_by(sorted_by(t, key), key).desc == !sorted_by(t, key).desc,
        t.sort == key ==> sorted_by(sorted_by(t, key), key) == t,
        t.sort != key ==> sorted_by(t, key).desc == key.spec_default_desc(),
{
}

/// Moving `delta` places along the tab bar and then `delta` places back returns to the tab
/// one started from.
pub proof fn law_cycle_tab_back(a: AppV, delta: int)
    ensures
        spec_cycle_tab(spec_cycle_tab(a, delta), -delta).tab == a.tab,
{
    let i = a.tab.spec_index();
    let j = (i + delta) % (TAB_COUNT as int);
    assert(0 <= j < 7);
    assert(tab_at(j).spec_index() == j);
    assert((j - delta) % 7 == i) by (nonlinear_arith)
        requires
            j == (i + delta) % 7,
            0 <= i < 7,
    ;
    assert(tab_at(i) == a.tab);
}

/// Flipping a row open or closed twice leaves what is expanded and collapsed as it was.
pub proof fn law_toggle_twice(a: AppV, row: RowSpec)
    ensures
        toggled(toggled(a, row, None), row, None) == a,
{
    let b = toggled(toggled(a, row, None), row, None);
    match row.toggle {
        Toggle::Expand => {
            assert(b.expanded =~= a.expanded);
        },
        Toggle::Section => {
            assert(b.collapsed =~= a.collapsed);
        },
        Toggle::Leaf => {},
    }
}

/// Opening a row that is open, or closing one that is closed, changes nothing.
pub proof fn law_toggle_target_idempotent(a: AppV, row: RowSpec, want: bool)
    ensures
        toggled(toggled(a, row, Some(want)), row, Some(want)) == toggled(a, row, Some(want)),
{
    let once = toggled(a, row, Some(want));
    let twice = toggled(once, row, Some(want));
    match row.toggle {
        Toggle::Expand => {
            assert(twice.expanded =~= once.expanded);
        },
        Toggle::Section => {
            assert(twice.collapsed =~= once.collapsed);
        },
        Toggle::Leaf => {},
    }
}

/// Re-resolving the selection against a table: without rows nothing is selected; with rows
/// a row is selected and its key remembered; when the remembered key is still among the
/// rows, the selection follows it to wherever it moved (its first occurrence). Filter and sort
/// stay as they were. (The rows of a table fit in memory, so they number at most `usize::MAX`.)
pub proof fn law_synced_selection(t: TabV, rows: Seq<RowSpec>)
    requires
        rows.len() <= usize::MAX,
    ensures
        synced(t, rows).filter == t.filter,
        synced(t, rows).sort == t.sort,
        synced(t, rows).desc == t.desc,
        rows.len() == 0 ==> synced(t, rows).table.selected is None,
        rows.len() > 0 ==> (synced(t, rows).table.selected matches Some(i) && i < rows.len()
            && synced(t, rows).selected_key == Some(rows[i as int].key)),
        forall|j: int|
            0 <= j < rows.len() && t.selected_key == Some(#[trigger] rows[j].key) ==> (synced(t, rows).table.selected
                matches Some(i) && rows[i as int].key == rows[j].key && i <= j),
{
    if rows.len() > 0 {
        match t.selected_key {
            Some(k) => {
                lemma_first_key(rows, k);
            },
            None => {},
        }
    }
}

/// With distinct row keys, re-resolving the selection a second time changes nothing. (With
/// duplicate keys it can: a selection clamped onto a row whose key also appears earlier
/// moves to that earlier row.)
pub proof fn law_synced_idempotent(t: TabV, rows: Seq<RowSpec>)
    requires
        rows.len() <= usize::MAX,
        forall|a: int, b: int| 0 <= a < b < rows.len() ==> rows[a].key != rows[b].key,
    ensures
        synced(synced(t, rows), rows) == synced(t, rows),
{
    if rows.len() > 0 {
        let s = synced(t, rows);
        match t.selected_key {
            Some(k) => {
                lemma_first_key(rows, k);
            },
            None => {},
        }
        let i = s.table.selected->0 as int;
        lemma_first_key(rows, rows[i].key);
        assert(first_key(rows, rows[i].key) == Some(i));
    }
}

/// Ending processes keeps exactly the processes whose PID was not ended, in their order.
pub proof fn law_kill_keeps_the_rest(ps: Seq<ProcessInfo>, gone: Set<u32>)
    ensures
        survivors(ps, gone) == ps.filter(|p: ProcessInfo| !gone.contains(p.pid)),
        forall|i: int| 0 <= i < survivors(ps, gone).len() ==> !gone.contains(#[trigger] survivors(ps, gone)[i].pid),
        forall|i: int| 0 <= i < ps.len() && !gone.contains(ps[i].pid) ==> #[trigger] survivors(ps, gone).contains(ps[i]),
    decreases ps.len(),
{
    reveal(Seq::filter);
    let pred = |p: ProcessInfo| !gone.contains(p.pid);
    if ps.len() > 0 {
        law_kill_keeps_the_rest(ps.drop_last(), gone);
    }
    assert(survivors(ps, gone) == ps.filter(pred));
    assert forall|i: int| 0 <= i < survivors(ps, gone).len() implies !gone.contains(#[trigger] survivors(ps, gone)[i].pid) by {
        ps.lemma_filter_pred(pred, i);
    }
    assert forall|i: int| 0 <= i < ps.len() && !gone.contains(ps[i].pid) implies #[trigger] survivors(ps, gone).contains(ps[i]) by {
        ps.lemma_filter_contains(pred, i);
    }
}

/// The refresh interval the command line asks for is never below the minimum.
pub proof fn law_interval_at_least_minimum(args: Seq<Seq<char>>, interval: u64)
    requires
        interval >= MIN_INTERVAL_MS,
    ensures
        parse_args_spec(args, interval) matches Ok(Command::Run(ms)) ==> ms >= MIN_INTERVAL_MS,
    decreases args.len(),
{
    if args.len() >= 2 {
        let rest = args.skip(2);
        match crate::cli::parse_u64_spec(args[1]) {
            Some(ms) => {
                law_interval_at_least_minimum(
                    rest,
                    if ms > MIN_INTERVAL_MS {
                        ms
                    } else {
                        MIN_INTERVAL_MS
                    },
                );
            },
            None => {},
        }
    }
}

/// Starting from the default, every interval the command line yields is at least the minimum.
pub proof fn law_parsed_interval(args: Seq<Seq<char>>)
    ensures
        parse_args_spec(args, DEFAULT_INTERVAL_MS) matches Ok(Command::Run(ms)) ==> ms >= MIN_INTERVAL_MS,
{
    law_interval_at_least_minimum(args, DEFAULT_INTERVAL_MS);
}

/// A graph's samples after adding one: at most `HISTORY_LEN` of them, the newest last, and
/// they are the most recent ones in order.
pub proof fn law_history_keeps_newest<T>(s: Seq<T>, v: T)
    ensures
        last_n(s.push(v), HISTORY_LEN as nat).len() <= HISTORY_LEN,
        last_n(s.push(v), HISTORY_LEN as nat).last() == v,
        last_n(s.push(v), HISTORY_LEN as nat) == s.push(v).skip(
            s.push(v).len() - last_n(s.push(v), HISTORY_LEN as nat).len(),
        ),
{
    let full = s.push(v);
    if full.len() <= HISTORY_LEN {
        assert(full.skip(0) =~= full);
    }
}

/// Moving the selection keeps the table as it is and always lands on one of its rows.
pub proof fn law_move_stays_on_rows(a: AppV, delta: isize)
    requires
        a.wf(),
        cur_rows(a).len() > 0,
        cur_rows(a).len() <= usize::MAX,
    ensures
        moved(a, delta).tab == a.tab,
        cur_rows(moved(a, delta)) == cur_rows(a),
        moved(a, delta).cur().table.selected matches Some(i) && i < cur_rows(a).len(),
{
    reveal(moved);
    reveal(spec_build);
    let rows = cur_rows(a);
    let t = synced(a.cur(), rows);
    let current = match t.table.selected {
        Some(i) => i,
        None => 0,
    };
    let t2 = selected_at(t, rows, sat_add_signed(current, delta));
    let b = a.with_cur(t2);
    assert(0 <= a.tab.spec_index() < TAB_COUNT);
    assert(b.tabs[a.tab.spec_index()] == t2);
    assert(b.cur() == t2);
    assert(spec_build(b, b.tab) == spec_build(a, a.tab));
}

/// Filtering keeps, in their order, exactly the items whose text matches the filter: all of
/// them for an empty filter, else those whose text contains it when both are lowercased.
pub proof fn law_filter_matches(texts: Seq<Seq<char>>, filter: Seq<char>)
    requires
        texts.len() <= usize::MAX,
    ensures
        forall|i: int|
            0 <= i < texts.len() ==> (filtered(texts, filter).contains(i as usize) <==> matches_filter(#[trigger] texts[i], filter)),
        forall|a: int, b: int|
            0 <= a < b < filtered(texts, filter).len() ==> filtered(texts, filter)[a] < filtered(texts, filter)[b],
        forall|a: int| 0 <= a < filtered(texts, filter).len() ==> filtered(texts, filter)[a] < texts.len(),
    decreases texts.len(),
{
    if texts.len() > 0 {
        let init = texts.drop_last();
        law_filter_matches(init, filter);
        let rest = filtered(init, filter);
        let n = texts.len() - 1;
        assert forall|i: int| 0 <= i < texts.len() implies (filtered(texts, filter).contains(i as usize) <==> matches_filter(#[trigger] texts[i], filter)) by {
            if i < n {
                assert(init[i] == texts[i]);
                if filtered(texts, filter).contains(i as usize) && !rest.contains(i as usize) {
                    let k = choose|k: int| 0 <= k < filtered(texts, filter).len() && filtered(texts, filter)[k] == i as usize;
                    assert(k == rest.len());
                }
                if rest.contains(i as usize) {
                    let k = choose|k: int| 0 <= k < rest.len() && rest[k] == i as usize;
                    assert(filtered(texts, filter)[k] == i as usize);
                }
            } else {
                if matches_filter(texts[i], filter) {
                    assert(filtered(texts, filter)[rest.len() as int] == i as usize);
                } else if filtered(texts, filter).contains(i as usize) {
                    let k = choose|k: int| 0 <= k < filtered(texts, filter).len() && filtered(texts, filter)[k] == i as usize;
                    assert(rest[k] < n);
                }
            }
        }
    }
}

/// Text without `&`, `<`, `>` or Braille characters comes out of HTML escaping unchanged.
pub proof fn law_escape_plain_text(s: Seq<char>)
    requires
        forall|i: int|
            0 <= i < s.len() ==> #[trigger] s[i] != '&' && s[i] != '<' && s[i] != '>' && !is_braille(s[i]),
    ensures
        escape_text(s) == s,
    decreases s.len(),
{
    if s.len() > 0 {
        let init = s.drop_last();
        assert forall|i: int| 0 <= i < init.len() implies #[trigger] init[i] != '&' && init[i] != '<' && init[i]
            != '>' && !is_braille(init[i]) by {
            assert(init[i] == s[i]);
        }
        law_escape_plain_text(init);
        assert(s[s.len() - 1] == s.last());
        assert(s =~= init + seq![s.last()]);
    }
}

proof fn lemma_hit_at(tabs: Seq<(Rect, Tab)>, column: u16, row: u16, i: int)
    requires
        0 <= i < tabs.len(),
        tabs[i].0.spec_contains(column, row),
        forall|j: int| 0 <= j < i ==> !(#[trigger] tabs[j].0.spec_contains(column, row)),
    ensures
        first_tab_hit(tabs, column, row) == Some(tabs[i].1),
    decreases tabs.len(),
{
    let init = tabs.drop_last();
    assert forall|j: int| 0 <= j < i && j < init.len() implies !(#[trigger] init[j].0.spec_contains(column, row)) by {
        assert(init[j] == tabs[j]);
    }
    if i < tabs.len() - 1 {
        lemma_hit_at(init, column, row, i);
    } else {
        lemma_no_hit(init, column, row);
    }
}

proof fn lemma_no_hit(tabs: Seq<(Rect, Tab)>, column: u16, row: u16)
    requires
        forall|j: int| 0 <= j < tabs.len() ==> !(#[trigger] tabs[j].0.spec_contains(column, row)),
    ensures
        first_tab_hit(tabs, column, row) is None,
    decreases tabs.len(),
{
    if tabs.len() > 0 {
        let init = tabs.drop_last();
        assert forall|j: int| 0 <= j < init.len() implies !(#[trigger] init[j].0.spec_contains(column, row)) by {
            assert(init[j] == tabs[j]);
        }
        lemma_no_hit(init, column, row);
    }
}

/// The tab bar's entries sit side by side after the title, and a click anywhere on an
/// entry's text selects that entry's tab (on any row but the screen's last possible one,
/// where a one-row area's bottom edge saturates).
pub proof fn law_tab_bar_clicks(left: u16, y: u16, i: int, column: u16)
    requires
        left + tab_bar_width() <= u16::MAX,
        y < u16::MAX,
        0 <= i < TAB_COUNT,
        tab_bar_areas(left, y)[i].0.x <= column < tab_bar_areas(left, y)[i].0.x + tab_bar_areas(left, y)[i].0.width,
    ensures
        tab_bar_areas(left, y)[0].0.x == left + TITLE_WIDTH,
        forall|k: int| 0 <= k < TAB_COUNT - 1 ==> #[trigger] tab_bar_areas(left, y)[k].0.x + tab_bar_areas(left, y)[k].0.width
            == tab_bar_areas(left, y)[k + 1].0.x,
        first_tab_hit(tab_bar_areas(left, y), column, y) == Some(tab_at(i)),
{
    lemma_tab_widths();
    let areas = tab_bar_areas(left, y);
    assert forall|k: int| 0 <= k < TAB_COUNT - 1 implies #[trigger] areas[k].0.x + areas[k].0.width == areas[k + 1].0.x by {
        assert(tabs_width_before((k + 1) as nat) == tabs_width_before(k as nat) + tab_title_text(tab_at(k)).len());
    }
    assert forall|j: int| 0 <= j < i implies !(#[trigger] areas[j].0.spec_contains(column, y)) by {
        assert(tabs_width_before((j + 1) as nat) == tabs_width_before(j as nat) + tab_title_text(tab_at(j)).len());
        assert(tabs_width_before((j + 1) as nat) <= tabs_width_before(i as nat)) by {
            assert(0 <= j < i < 7);
        }
    }
    assert(areas[i].0.spec_contains(column, y)) by {
        assert(tabs_width_before((i + 1) as nat) == tabs_width_before(i as nat) + tab_title_text(tab_at(i)).len());
        assert(tabs_width_before((i + 1) as nat) <= 91) by {
            assert(0 <= i < 7);
        }
    }
    lemma_hit_at(areas, column, y, i);
}

/// Ending processes always asks first: with no dialog open, no key ends anything; only the
/// confirmation dialog's yes (y, Y or Enter) does, and then it ends exactly the processes it
/// asked about.
pub proof fn law_end_task_asks_first(a: AppV, key: Key, page: int, now: u64)
    ensures
        a.popup is None ==> !(key_step(a, key, page, now).1 is EndProcesses),
        key_step(a, key, page, now).1 matches ActionV::EndProcesses { label, pids } ==> a.popup == Some(
            PopupV::ConfirmKill { label, pids },
        ) && (key.code == KeyCode::Char('y') || key.code == KeyCode::Char('Y') || key.code == KeyCode::Enter),
{
}

/// Any key closes the help dialog and does nothing else; Control+C quits instead.
pub proof fn law_help_closes_on_any_key(a: AppV, key: Key, page: int, now: u64)
    requires
        a.popup == Some(PopupV::Help),
    ensures
        key_step(a, key, page, now).1 == ActionV::Nothing,
        !(key.ctrl && key.code == KeyCode::Char('c')) ==> key_step(a, key, page, now).0 == (AppV { popup: None, ..a }),
{
}

/// Control+C quits from anywhere.
pub proof fn law_control_c_quits(a: AppV, page: int, now: u64)
    ensures
        key_step(a, Key { code: KeyCode::Char('c'), ctrl: true }, page, now).0.should_quit,
{
}

/// Reversing the sort order twice (S, S) leaves everything as it was.
pub proof fn law_reverse_twice(a: AppV, page: int, now: u64)
    requires
        a.wf(),
        a.popup is None,
        !a.editing_filter,
    ensures
        ({
            let s = Key { code: KeyCode::Char('S'), ctrl: false };
            key_step(key_step(a, s, page, now).0, s, page, now).0 == a
        }),
{
    let s = Key { code: KeyCode::Char('S'), ctrl: false };
    let b = key_step(a, s, page, now).0;
    assert(0 <= a.tab.spec_index() < TAB_COUNT);
    assert(b.cur() == TabV { desc: !a.cur().desc, ..a.cur() });
    assert(b.tabs.update(a.tab.spec_index(), TabV { desc: !b.cur().desc, ..b.cur() }) =~= a.tabs);
}

/// While typing a filter, a character followed by Backspace leaves the filter as it was.
pub proof fn law_backspace_undoes_typing(a: AppV, c: char, page: int, now: u64)
    requires
        a.wf(),
        a.popup is None,
        a.editing_filter,
    ensures
        key_step(
            key_step(a, Key { code: KeyCode::Char(c), ctrl: false }, page, now).0,
            Key { code: KeyCode::Backspace, ctrl: false },
            page,
            now,
        ).0 == a,
{
    let b = key_step(a, Key { code: KeyCode::Char(c), ctrl: false }, page, now).0;
    assert(0 <= a.tab.spec_index() < TAB_COUNT);
    assert(b.cur().filter == a.cur().filter.push(c));
    assert(b.cur().filter.drop_last() =~= a.cur().filter);
    assert(b.tabs.update(a.tab.spec_index(), TabV { filter: a.cur().filter, ..b.cur() }) =~= a.tabs);
}

/// Sorting processes by a column lists each given process once, in the column's order
/// (forward or reversed), processes that compare equal keeping their given order.
pub proof fn law_sort_processes_permutes(ps: Seq<ProcessInfo>, idx: Seq<usize>, key: SortKey, desc: bool)
    requires
        idx.len() <= usize::MAX,
        forall|a: int, b: int| 0 <= a < b < idx.len() ==> idx[a] != idx[b],
    ensures
        sort_processes(ps, idx, key, desc).len() == idx.len(),
        forall|a: int, b: int|
            0 <= a < b < idx.len() ==> sort_processes(ps, idx, key, desc)[a] != sort_processes(ps, idx, key, desc)[b],
        forall|i: usize| sort_processes(ps, idx, key, desc).contains(i) <==> idx.contains(i),
        forall|a: int, b: int|
            0 <= a < b < idx.len() ==> in_order(
                process_key(ps[sort_processes(ps, idx, key, desc)[a] as int], key),
                process_key(ps[sort_processes(ps, idx, key, desc)[b] as int], key),
                desc,
            ),
{
    let keys = idx.map_values(|i: usize| process_key(ps[i as int], key));
    let s = sorted_order(keys, desc);
    lemma_sorted_order_exists(keys, desc);
    let order = sort_processes(ps, idx, key, desc);
    assert(order == s.map_values(|j: usize| idx[j as int]));
    assert forall|a: int, b: int| 0 <= a < b < idx.len() implies order[a] != order[b] by {
        assert(s[a] != s[b]);
    }
    assert forall|i: usize| order.contains(i) <==> idx.contains(i) by {
        if order.contains(i) {
            let a = choose|a: int| 0 <= a < order.len() && order[a] == i;
            assert(idx[s[a] as int] == i);
        }
        if idx.contains(i) {
            let k = choose|k: int| 0 <= k < idx.len() && idx[k] == i;
            assert(s.contains(k as usize));
            let a = choose|a: int| 0 <= a < s.len() && s[a] == k as usize;
            assert(order[a] == i);
        }
    }
    assert forall|a: int, b: int| 0 <= a < b < idx.len() implies in_order(
        process_key(ps[order[a] as int], key),
        process_key(ps[order[b] as int], key),
        desc,
    ) by {
        assert(precedes(keys, desc, ix(s[a]), ix(s[b])));
        assert(keys[s[a] as int] == process_key(ps[order[a] as int], key));
        assert(keys[s[b] as int] == process_key(ps[order[b] as int], key));
    }
}

pub(crate) proof fn lemma_increasing_len(idx: Seq<usize>, n: int)
    requires
        n >= 0,
        forall|a: int, b: int| 0 <= a < b < idx.len() ==> idx[a] < idx[b],
        forall|a: int| 0 <= a < idx.len() ==> idx[a] < n,
    ensures
        idx.len() <= n,
    decreases idx.len(),
{
    if idx.len() > 0 {
        let init = idx.drop_last();
        assert forall|a: int| 0 <= a < init.len() implies init[a] < idx.last() by {
            assert(init[a] == idx[a]);
        }
        lemma_increasing_len(init, idx.last() as int);
    }
}

/// The Details tab lists each process whose name matches the filter (every process for an
/// empty filter, else those containing it, ignoring case) exactly once, and no other process,
/// in the order of the sort column.
pub proof fn law_details_lists_each_match_once(
    ps: Seq<ProcessInfo>,
    filter: Seq<char>,
    sort: SortKey,
    desc: bool,
    total_memory: u64,
)
    requires
        ps.len() <= usize::MAX,
    ensures
        ({
            let order = sort_processes(ps, filtered(process_names(ps), filter), sort, desc);
            &&& details_view(ps, filter, sort, desc, total_memory).rows == order.map_values(
                |i: usize| details_row(ps[i as int], total_memory),
            )
            &&& forall|a: int, b: int| 0 <= a < b < order.len() ==> order[a] != order[b]
            &&& forall|i: int|
                0 <= i < ps.len() ==> (order.contains(i as usize) <==> matches_filter(#[trigger] ps[i].name@, filter))
            &&& forall|a: int| 0 <= a < order.len() ==> order[a] < ps.len()
            &&& forall|a: int, b: int|
                0 <= a < b < order.len() ==> in_order(
                    process_key(ps[order[a] as int], sort),
                    process_key(ps[order[b] as int], sort),
                    desc,
                )
        }),
{
    let names = process_names(ps);
    let idx = filtered(names, filter);
    law_filter_matches(names, filter);
    lemma_increasing_len(idx, ps.len() as int);
    law_sort_processes_permutes(ps, idx, sort, desc);
    let order = sort_processes(ps, idx, sort, desc);
    assert forall|i: int| 0 <= i < ps.len() implies (order.contains(i as usize) <==> matches_filter(#[trigger] ps[i].name@, filter)) by {
        assert(names[i] == ps[i].name@);
    }
    assert forall|a: int| 0 <= a < order.len() implies order[a] < ps.len() by {
        assert(order.contains(order[a]));
        assert(idx.contains(order[a]));
    }
}

proof fn lemma_group_members(ps: Seq<ProcessInfo>, idx: Seq<usize>, by: GroupBy, g: int)
    requires
        distinct_indices(idx, ps.len()),
        idx.len() <= usize::MAX,
        0 <= g < group_specs(ps, idx, by).len(),
    ensures
        forall|i: usize| #[trigger] group_specs(ps, idx, by)[g].members.contains(i) <==> runs(name_sorted(ps, idx, by), ps, by)[g].contains(i),
        forall|a: int, b: int|
            0 <= a < b < group_specs(ps, idx, by)[g].members.len() ==> group_specs(ps, idx, by)[g].members[a]
                != group_specs(ps, idx, by)[g].members[b],
        group_specs(ps, idx, by)[g].name == group_name(ps[runs(name_sorted(ps, idx, by), ps, by)[g][0] as int], by),
{
    let n = name_sorted(ps, idx, by);
    let nkeys = idx.map_values(|i: usize| text_key(group_name(ps[i as int], by)));
    lemma_reorder_permutes(idx, nkeys, false);
    lemma_runs_partition(n, ps, by);
    lemma_runs(n, ps, by);
    let r = runs(n, ps, by)[g];
    assert(r.len() <= n.len());
    let pkeys = r.map_values(|i: usize| seq![ps[i as int].pid as u64]);
    lemma_reorder_permutes(r, pkeys, false);
    assert(group_specs(ps, idx, by)[g].members == pid_sorted(ps, r));
}

/// Grouping puts each of the given processes in exactly one group, named after the process's
/// group name (its name, or its user), and a group lists each member once.
pub proof fn law_groups_partition(ps: Seq<ProcessInfo>, idx: Seq<usize>, by: GroupBy)
    requires
        distinct_indices(idx, ps.len()),
        idx.len() <= usize::MAX,
    ensures
        forall|g: int, a: int|
            0 <= g < group_specs(ps, idx, by).len() && 0 <= a < group_specs(ps, idx, by)[g].members.len() ==> group_name(
                ps[#[trigger] group_specs(ps, idx, by)[g].members[a] as int],
                by,
            ) == group_specs(ps, idx, by)[g].name,
        forall|i: usize|
            idx.contains(i) <==> exists|g: int| 0 <= g < group_specs(ps, idx, by).len() && #[trigger] group_specs(ps, idx, by)[g].members.contains(i),
        forall|i: usize, g1: int, g2: int|
            0 <= g1 < g2 < group_specs(ps, idx, by).len() ==> !(#[trigger] group_specs(ps, idx, by)[g1].members.contains(i)
                && #[trigger] group_specs(ps, idx, by)[g2].members.contains(i)),
        forall|g: int, a: int, b: int|
            0 <= g < group_specs(ps, idx, by).len() && 0 <= a < b < group_specs(ps, idx, by)[g].members.len()
                ==> #[trigger] group_specs(ps, idx, by)[g].members[a] != #[trigger] group_specs(ps, idx, by)[g].members[b],
{
    let gs = group_specs(ps, idx, by);
    let n = name_sorted(ps, idx, by);
    let rs = runs(n, ps, by);
    let nkeys = idx.map_values(|i: usize| text_key(group_name(ps[i as int], by)));
    lemma_reorder_permutes(idx, nkeys, false);
    lemma_runs_partition(n, ps, by);
    assert forall|g: int, a: int| 0 <= g < gs.len() && 0 <= a < gs[g].members.len() implies group_name(
        ps[#[trigger] gs[g].members[a] as int],
        by,
    ) == gs[g].name by {
        lemma_group_members(ps, idx, by, g);
        let m = gs[g].members[a];
        assert(gs[g].members.contains(m));
        assert(rs[g].contains(m));
        let k = choose|k: int| 0 <= k < rs[g].len() && rs[g][k] == m;
        assert(group_name(ps[rs[g][k] as int], by) == group_name(ps[rs[g][0] as int], by));
    }
    assert forall|i: usize| idx.contains(i) <==> exists|g: int| 0 <= g < gs.len() && #[trigger] gs[g].members.contains(i) by {
        if idx.contains(i) {
            assert(n.contains(i));
            let g = choose|g: int| 0 <= g < rs.len() && #[trigger] rs[g].contains(i);
            lemma_group_members(ps, idx, by, g);
            assert(gs[g].members.contains(i));
        }
        if exists|g: int| 0 <= g < gs.len() && #[trigger] gs[g].members.contains(i) {
            let g = choose|g: int| 0 <= g < gs.len() && #[trigger] gs[g].members.contains(i);
            lemma_group_members(ps, idx, by, g);
            assert(rs[g].contains(i));
            let k = choose|k: int| 0 <= k < rs[g].len() && rs[g][k] == i;
            lemma_runs(n, ps, by);
            assert(n.contains(rs[g][k]));
        }
    }
    assert forall|i: usize, g1: int, g2: int| 0 <= g1 < g2 < gs.len() implies !(#[trigger] gs[g1].members.contains(i)
        && #[trigger] gs[g2].members.contains(i)) by {
        lemma_group_members(ps, idx, by, g1);
        lemma_group_members(ps, idx, by, g2);
    }
    assert forall|g: int, a: int, b: int| 0 <= g < gs.len() && 0 <= a < b < gs[g].members.len() implies #[trigger] gs[g].members[a]
        != #[trigger] gs[g].members[b] by {
        lemma_group_members(ps, idx, by, g);
    }
}

/// The Processes tab sends each matching process to exactly one side: the background
/// processes (by name) on one, the apps on the other.
pub proof fn law_background_split(ps: Seq<ProcessInfo>, idx: Seq<usize>, want: bool)
    ensures
        forall|i: usize|
            #[trigger] split_background(ps, idx, want).contains(i) <==> (idx.contains(i) && spec_is_background(
                ps[i as int].name@,
            ) == want),
    decreases idx.len(),
{
    if idx.len() > 0 {
        let init = idx.drop_last();
        law_background_split(ps, init, want);
        let rest = split_background(ps, init, want);
        let x = idx.last();
        assert forall|i: usize| #[trigger] split_background(ps, idx, want).contains(i) <==> (idx.contains(i)
            && spec_is_background(ps[i as int].name@) == want) by {
            let out = split_background(ps, idx, want);
            if out.contains(i) {
                let k = choose|k: int| 0 <= k < out.len() && out[k] == i;
                if k < rest.len() {
                    assert(rest[k] == i);
                    assert(rest.contains(i));
                    let q = choose|q: int| 0 <= q < init.len() && init[q] == i;
                    assert(idx[q] == i);
                } else {
                    assert(idx[idx.len() - 1] == i);
                }
            }
            if idx.contains(i) && spec_is_background(ps[i as int].name@) == want {
                let q = choose|q: int| 0 <= q < idx.len() && idx[q] == i;
                if q < idx.len() - 1 {
                    assert(init[q] == i);
                    assert(rest.contains(i));
                    let k = choose|k: int| 0 <= k < rest.len() && rest[k] == i;
                    assert(out[k] == i);
                } else {
                    assert(out[out.len() - 1] == i);
                }
            }
        }
    }
}

/// An empty filter keeps every item, in order.
pub proof fn law_empty_filter_keeps_all(texts: Seq<Seq<char>>)
    requires
        texts.len() <= usize::MAX,
    ensures
        filtered(texts, Seq::empty()) == Seq::new(texts.len(), |i: int| i as usize),
    decreases texts.len(),
{
    if texts.len() > 0 {
        law_empty_filter_keeps_all(texts.drop_last());
        assert(filtered(texts, Seq::empty()) =~= Seq::new(texts.len(), |i: int| i as usize));
    }
}

/// Groups come in strictly ascending order of their names (character by character), so no
/// two groups share a name.
pub proof fn law_group_names_ascending(ps: Seq<ProcessInfo>, idx: Seq<usize>, by: GroupBy)
    requires
        idx.len() <= usize::MAX,
    ensures
        forall|g1: int, g2: int|
            0 <= g1 < g2 < group_specs(ps, idx, by).len() ==> key_before(
                text_key(#[trigger] group_specs(ps, idx, by)[g1].name),
                text_key(#[trigger] group_specs(ps, idx, by)[g2].name),
            ) && group_specs(ps, idx, by)[g1].name != group_specs(ps, idx, by)[g2].name,
{
    let keys = idx.map_values(|i: usize| text_key(group_name(ps[i as int], by)));
    lemma_sorted_order_exists(keys, false);
    let so = sorted_order(keys, false);
    let n = name_sorted(ps, idx, by);
    assert(n == so.map_values(|j: usize| idx[j as int]));
    assert forall|a: int, b: int| 0 <= a < b < n.len() implies in_order(name_key(ps, n[a], by), name_key(ps, n[b], by), false) by {
        assert(precedes(keys, false, ix(so[a]), ix(so[b])));
        assert(keys[ix(so[a])] == name_key(ps, n[a], by));
        assert(keys[ix(so[b])] == name_key(ps, n[b], by));
    }
    lemma_runs_ascending(n, ps, by);
    lemma_runs(n, ps, by);
    let gs = group_specs(ps, idx, by);
    let rs = runs(n, ps, by);
    assert forall|g1: int, g2: int| 0 <= g1 < g2 < gs.len() implies key_before(
        text_key(#[trigger] gs[g1].name),
        text_key(#[trigger] gs[g2].name),
    ) && gs[g1].name != gs[g2].name by {
        assert(gs[g1].name == group_name(ps[rs[g1][0] as int], by));
        assert(gs[g2].name == group_name(ps[rs[g2][0] as int], by));
        assert(key_before(name_key(ps, rs[g1][0], by), name_key(ps, rs[g2][0], by)));
        lemma_key_order(text_key(gs[g1].name), text_key(gs[g2].name), text_key(gs[g2].name));
    }
}

/// Showing groups in a column's order shows each group once: the shown groups are the
/// groups at the positions of a permutation.
pub proof fn law_ordered_groups_permute(ps: Seq<ProcessInfo>, gs: Seq<GroupSpec>, key: SortKey, desc: bool)
    requires
        gs.len() <= usize::MAX,
    ensures
        ordered_groups(ps, gs, key, desc).len() == gs.len(),
        forall|a: int| 0 <= a < gs.len() ==> #[trigger] group_order(ps, gs, key, desc)[a] < gs.len(),
        forall|a: int| 0 <= a < gs.len() ==> #[trigger] ordered_groups(ps, gs, key, desc)[a] == gs[group_order(ps, gs, key, desc)[a] as int],
        forall|a: int, b: int| 0 <= a < b < gs.len() ==> group_order(ps, gs, key, desc)[a] != group_order(ps, gs, key, desc)[b],
        forall|j: usize| j < gs.len() ==> #[trigger] group_order(ps, gs, key, desc).contains(j),
{
    let all = Seq::new(gs.len(), |i: int| i as usize);
    let keys = gs.map_values(|g: GroupSpec| group_key(ps, g, key));
    lemma_reorder_permutes(all, keys, desc);
    let o = group_order(ps, gs, key, desc);
    let og = ordered_groups(ps, gs, key, desc);
    assert forall|a: int| 0 <= a < gs.len() implies #[trigger] o[a] < gs.len() by {
        assert(o.contains(o[a]));
        assert(all.contains(o[a]));
    }
    assert forall|a: int, b: int| 0 <= a < b < gs.len() implies o[a] != o[b] by {
        assert forall|x: int, y: int| 0 <= x < y < all.len() implies all[x] != all[y] by {}
    }
    assert forall|j: usize| j < gs.len() implies #[trigger] o.contains(j) by {
        assert(all[j as int] == j);
        assert(all.contains(j));
    }
}

/// The users a set of processes runs under (each process's user, "Unknown" without one).
pub open spec fn users_of(ps: Seq<ProcessInfo>, idx: Seq<usize>) -> Set<Seq<char>> {
    Set::new(|u: Seq<char>| exists|k: int| 0 <= k < idx.len() && group_name(ps[idx[k] as int], GroupBy::User) == u)
}

/// The Users tab shows one group row per distinct user among the processes matching the
/// filter, keyed "user:" and the user, expandable and not endable, with exactly that user's
/// matching processes as its members; its title counts those users.
pub proof fn law_users_view(
    ps: Seq<ProcessInfo>,
    filter: Seq<char>,
    sort: SortKey,
    desc: bool,
    expanded: Set<Seq<char>>,
    total_memory: u64,
)
    requires
        ps.len() <= usize::MAX,
    ensures
        ({
            let idx = filtered(process_names(ps), filter);
            let groups = ordered_groups(ps, group_specs(ps, idx, GroupBy::User), sort, desc);
            let v = users_view(ps, filter, sort, desc, expanded, total_memory);
            &&& v.title == "Users · "@ + digits(groups.len())
            &&& v.rows == concat_rows(groups.map_values(|g: GroupSpec| user_rows(ps, g, sort, desc, expanded, total_memory)))
            &&& groups.map_values(|g: GroupSpec| g.name).no_duplicates()
            &&& groups.map_values(|g: GroupSpec| g.name).to_set() == users_of(ps, idx)
            &&& groups.len() == users_of(ps, idx).len()
            &&& forall|g: int| 0 <= g < groups.len() ==> {
                &&& #[trigger] user_row(ps, groups[g], expanded, total_memory).key == "user:"@ + groups[g].name
                &&& user_row(ps, groups[g], expanded, total_memory).toggle == Toggle::Expand
                &&& user_row(ps, groups[g], expanded, total_memory).pids.len() == 0
            }
            &&& forall|g: int, i: usize|
                0 <= g < groups.len() ==> (#[trigger] groups[g].members.contains(i) <==> (idx.contains(i)
                    && group_name(ps[i as int], GroupBy::User) == groups[g].name))
        }),
{
    let names = process_names(ps);
    let idx = filtered(names, filter);
    law_filter_matches(names, filter);
    lemma_increasing_len(idx, ps.len() as int);
    assert(distinct_indices(idx, ps.len())) by {
        assert forall|a: int, b: int| 0 <= a < b < idx.len() implies idx[a] != idx[b] by {}
    }
    let gs = group_specs(ps, idx, GroupBy::User);
    let n = name_sorted(ps, idx, GroupBy::User);
    let nkeys = idx.map_values(|i: usize| text_key(group_name(ps[i as int], GroupBy::User)));
    lemma_reorder_permutes(idx, nkeys, false);
    lemma_runs_count(n, ps, GroupBy::User);
    lemma_runs(n, ps, GroupBy::User);
    law_groups_partition(ps, idx, GroupBy::User);
    law_group_names_ascending(ps, idx, GroupBy::User);
    law_ordered_groups_permute(ps, gs, sort, desc);
    let o = group_order(ps, gs, sort, desc);
    let groups = ordered_groups(ps, gs, sort, desc);
    let gnames = groups.map_values(|g: GroupSpec| g.name);
    // Distinct names.
    assert forall|x: int, y: int| 0 <= x < gnames.len() && 0 <= y < gnames.len() && x != y implies gnames[x] != gnames[y] by {
        let (jx, jy) = (o[x] as int, o[y] as int);
        assert(jx != jy);
        if jx < jy {
            assert(gs[jx].name != gs[jy].name);
        } else {
            assert(gs[jy].name != gs[jx].name);
        }
    }
    // Members: a group's members are exactly the matching processes of its user.
    assert forall|g: int, i: usize| 0 <= g < groups.len() implies (#[trigger] groups[g].members.contains(i) <==> (
        idx.contains(i) && group_name(ps[i as int], GroupBy::User) == groups[g].name)) by {
        let j = o[g] as int;
        assert(groups[g] == gs[j]);
        if groups[g].members.contains(i) {
            let a = choose|a: int| 0 <= a < gs[j].members.len() && gs[j].members[a] == i;
            assert(group_name(ps[gs[j].members[a] as int], GroupBy::User) == gs[j].name);
            assert(exists|h: int| 0 <= h < gs.len() && #[trigger] gs[h].members.contains(i));
        }
        if idx.contains(i) && group_name(ps[i as int], GroupBy::User) == groups[g].name {
            let h = choose|h: int| 0 <= h < gs.len() && #[trigger] gs[h].members.contains(i);
            let a = choose|a: int| 0 <= a < gs[h].members.len() && gs[h].members[a] == i;
            assert(group_name(ps[gs[h].members[a] as int], GroupBy::User) == gs[h].name);
            if h != j {
                if h < j {
                    assert(gs[h].name != gs[j].name);
                } else {
                    assert(gs[j].name != gs[h].name);
                }
            }
        }
    }
    // The names are exactly the users.
    let users = users_of(ps, idx);
    assert forall|u: Seq<char>| gnames.to_set().contains(u) <==> users.contains(u) by {
        if gnames.to_set().contains(u) {
            let x = choose|x: int| 0 <= x < gnames.len() && gnames[x] == u;
            let j = o[x] as int;
            let r = runs(n, ps, GroupBy::User)[j];
            lemma_group_members(ps, idx, GroupBy::User, j);
            assert(r.len() > 0);
            assert(gs[j].members.contains(r[0]));
            let h = choose|h: int| 0 <= h < gs.len() && #[trigger] gs[h].members.contains(r[0]);
            assert(idx.contains(r[0]));
            let k = choose|k: int| 0 <= k < idx.len() && idx[k] == r[0];
            assert(group_name(ps[idx[k] as int], GroupBy::User) == u);
        }
        if users.contains(u) {
            let k = choose|k: int| 0 <= k < idx.len() && group_name(ps[idx[k] as int], GroupBy::User) == u;
            let i = idx[k];
            assert(idx.contains(i));
            let h = choose|h: int| 0 <= h < gs.len() && #[trigger] gs[h].members.contains(i);
            let a = choose|a: int| 0 <= a < gs[h].members.len() && gs[h].members[a] == i;
            assert(group_name(ps[gs[h].members[a] as int], GroupBy::User) == gs[h].name);
            assert(o.contains(h as usize));
            let x = choose|x: int| 0 <= x < o.len() && o[x] == h as usize;
            assert(groups[x] == gs[h]);
            assert(gnames[x] == u);
        }
    }
    assert(gnames.to_set() =~= users);
    gnames.unique_seq_to_set();
}

proof fn lemma_split_len(ps: Seq<ProcessInfo>, idx: Seq<usize>, want: bool)
    ensures
        split_background(ps, idx, want).len() <= idx.len(),
    decreases idx.len(),
{
    if idx.len() > 0 {
        lemma_split_len(ps, idx.drop_last(), want);
    }
}

/// The Processes tab: its title counts the processes matching the filter. The Apps section
/// (the matching processes that are not background processes, grouped by name) and the
/// Background processes section (one group per background process) each appear only when
/// they hold a process; each opens with a section row that names it, counts its groups, can
/// be collapsed and ends nothing; a collapsed section shows only that row.
pub proof fn law_processes_view_sections(
    ps: Seq<ProcessInfo>,
    filter: Seq<char>,
    sort: SortKey,
    desc: bool,
    expanded: Set<Seq<char>>,
    collapsed: Set<Seq<char>>,
    total_memory: u64,
)
    requires
        ps.len() <= usize::MAX,
    ensures
        ({
            let idx = filtered(process_names(ps), filter);
            let fg = split_background(ps, idx, false);
            let bg = split_background(ps, idx, true);
            let apps = ordered_groups(ps, group_specs(ps, fg, GroupBy::Name), sort, desc);
            let bgs = ordered_groups(ps, single_groups(ps, bg), sort, desc);
            let a = section_rows(ps, "sec:apps"@, "Apps"@, apps, expanded, collapsed, total_memory);
            let b = section_rows(ps, "sec:background"@, "Background processes"@, bgs, expanded, collapsed, total_memory);
            let v = processes_view(ps, filter, sort, desc, expanded, collapsed, total_memory);
            &&& v.title == "Processes · "@ + digits(idx.len())
            &&& v.rows == a + b
            &&& (a.len() == 0 <==> fg.len() == 0)
            &&& (b.len() == 0 <==> bg.len() == 0)
            &&& bgs.len() == bg.len()
            &&& fg.len() > 0 ==> a[0] == section_row("sec:apps"@, "Apps"@, collapsed.contains("sec:apps"@), apps.len())
            &&& bg.len() > 0 ==> b[0] == section_row(
                "sec:background"@,
                "Background processes"@,
                collapsed.contains("sec:background"@),
                bgs.len(),
            )
            &&& collapsed.contains("sec:apps"@) ==> a.len() <= 1
            &&& collapsed.contains("sec:background"@) ==> b.len() <= 1
        }),
        forall|key: Seq<char>, label: Seq<char>, c: bool, count: nat|
            #[trigger] section_row(key, label, c, count).toggle == Toggle::Section && section_row(key, label, c, count).pids.len()
                == 0 && section_row(key, label, c, count).key == key,
{
    let names = process_names(ps);
    let idx = filtered(names, filter);
    law_filter_matches(names, filter);
    lemma_increasing_len(idx, ps.len() as int);
    let fg = split_background(ps, idx, false);
    let bg = split_background(ps, idx, true);
    lemma_split_len(ps, idx, false);
    lemma_split_len(ps, idx, true);
    let gs = group_specs(ps, fg, GroupBy::Name);
    let n = name_sorted(ps, fg, GroupBy::Name);
    let nkeys = fg.map_values(|i: usize| text_key(group_name(ps[i as int], GroupBy::Name)));
    lemma_reorder_permutes(fg, nkeys, false);
    lemma_runs_count(n, ps, GroupBy::Name);
    law_ordered_groups_permute(ps, gs, sort, desc);
    law_ordered_groups_permute(ps, single_groups(ps, bg), sort, desc);
}

} // verus!
