//! What "end task" asks, what the confirmation dialog's answers do, and what typing a filter
//! does.
use crate::app::{
    cur_rows, first_key, key_step, lemma_first_key, lemma_with_cur_twice, nothing_to_end, spec_request_kill, ActionV, AppV,
    Key, KeyCode, PopupV, TabV,
};
use crate::tabs::TAB_COUNT;
use vstd::prelude::*;

verus! {

/// Delete (or x) on the selected row asks to end exactly that row's processes, naming the
/// row; on a row with no processes (a section, a user) it says there is nothing to end and
/// asks nothing. Either way nothing is ended yet.
pub proof fn law_delete_asks_to_end_selected(a: AppV, i: int, code: KeyCode, page: int, now: u64)
    requires
        a.wf(),
        a.popup is None,
        !a.editing_filter,
        code == KeyCode::Delete || code == KeyCode::Char('x'),
        cur_rows(a).len() <= usize::MAX,
        0 <= i < cur_rows(a).len(),
        a.cur().selected_key == Some(cur_rows(a)[i].key),
        forall|j: int| 0 <= j < i ==> cur_rows(a)[j].key != cur_rows(a)[i].key,
    ensures
        ({
            let row = cur_rows(a)[i];
            let b = key_step(a, Key { code, ctrl: false }, page, now);
            &&& b.1 == ActionV::Nothing
            &&& b.0.processes == a.processes
            &&& row.pids.len() > 0 ==> b.0.popup == Some(PopupV::ConfirmKill { label: row.label, pids: row.pids })
            &&& row.pids.len() == 0 ==> b.0.popup is None && b.0.status == Some((nothing_to_end(), now))
        }),
{
    reveal(spec_request_kill);
    let rows = cur_rows(a);
    lemma_first_key(rows, rows[i].key);
    assert(first_key(rows, rows[i].key) == Some(i));
    assert(0 <= a.tab.spec_index() < TAB_COUNT);
}

/// In the confirmation dialog, y, Y and Enter end the processes it names; n, N, q and Esc
/// close it without ending anything; any other key leaves it open. Nothing else changes.
pub proof fn law_confirm_answers(a: AppV, label: Seq<char>, pids: Seq<u32>, key: Key, page: int, now: u64)
    requires
        a.popup == Some(PopupV::ConfirmKill { label, pids }),
        !(key.ctrl && key.code == KeyCode::Char('c')),
    ensures
        ({
            let b = key_step(a, key, page, now);
            let yes = key.code == KeyCode::Char('y') || key.code == KeyCode::Char('Y') || key.code == KeyCode::Enter;
            let no = key.code == KeyCode::Char('n') || key.code == KeyCode::Char('N') || key.code == KeyCode::Char('q')
                || key.code == KeyCode::Esc;
            &&& yes ==> b == (AppV { popup: None, ..a }, ActionV::EndProcesses { label, pids })
            &&& no ==> b == (AppV { popup: None, ..a }, ActionV::Nothing)
            &&& !yes && !no ==> b == (a, ActionV::Nothing)
        }),
{
}

/// While typing a filter: a character is added at its end, Backspace removes its last
/// character (none when it is empty), Enter stops typing and keeps it, Esc stops typing and
/// clears it. The tab and its sort stay as they were.
pub proof fn law_filter_typing(a: AppV, c: char, page: int, now: u64)
    requires
        a.wf(),
        a.popup is None,
        a.editing_filter,
    ensures
        ({
            let step = |code: KeyCode| key_step(a, Key { code, ctrl: false }, page, now).0;
            let f = a.cur().filter;
            &&& step(KeyCode::Char(c)).cur().filter == f.push(c) && step(KeyCode::Char(c)).editing_filter
            &&& step(KeyCode::Backspace).cur().filter == (if f.len() > 0 {
                f.subrange(0, f.len() - 1)
            } else {
                f
            })
            &&& step(KeyCode::Enter).cur().filter == f && !step(KeyCode::Enter).editing_filter
            &&& step(KeyCode::Esc).cur().filter.len() == 0 && !step(KeyCode::Esc).editing_filter
            &&& step(KeyCode::Char(c)).tab == a.tab && step(KeyCode::Char(c)).cur().sort == a.cur().sort
            &&& step(KeyCode::Char(c)).cur().desc == a.cur().desc
        }),
{
    let f = a.cur().filter;
    let t1 = TabV { filter: f.push(c), ..a.cur() };
    lemma_with_cur_twice(a, t1, t1);
    let t2 = TabV { filter: if f.len() > 0 { f.drop_last() } else { f }, ..a.cur() };
    lemma_with_cur_twice(a, t2, t2);
    let t3 = TabV { filter: Seq::empty(), ..a.cur() };
    lemma_with_cur_twice(a, t3, t3);
}

} // verus!
