//! The task manager's state and how it reacts to keys and clicks.
//!
//! The state machine decides; the terminal front end performs what it cannot do itself
//! (ending processes, resetting the history, reloading lists) and reports back.
use crate::model::{lemma_survivors_fit, survivors, totals_fit, AppHistoryEntry, ProcessInfo, ServiceInfo, StartupAppInfo};
use crate::tabs::{tab_at, SortKey, Tab, TAB_COUNT};
use crate::grouped::{processes, processes_view, users, users_view};
use crate::text::{pop_char, push_char, push_str};
use crate::grouped::{in_set_exec, set_view};
use crate::views::{build_columns_sorts, ColumnSpec, Toggle};
use crate::format::{digits, push_digits};
use crate::views::{
    app_history, details, details_view, history_view, services, services_view, startup,
    startup_view, RowSpec, View, ViewRow, ViewSpec,
};
use core::time::Duration;
use vstd::prelude::*;
use vstd::string::StringExecFns;
use vstd::view::View as _;
use vstd::pervasive::VecAdditionalExecFns;

verus! {

/// Number of samples the performance graphs keep (one minute at the default refresh).
pub const HISTORY_LEN: usize = 60;

/// How long a status message stays in the footer, in milliseconds.
pub const STATUS_TIMEOUT_MS: u64 = 4000;

/// Which row of a table is selected and which row is scrolled to the top.
#[derive(Clone, Copy, PartialEq, Eq, Structural, Debug)]
pub struct TableState {
    pub offset: usize,
    pub selected: Option<usize>,
}

impl TableState {
    /// Nothing selected, scrolled to the top.
    pub fn new() -> (t: TableState)
        ensures
            t.offset == 0,
            t.selected is None,
    {
        TableState { offset: 0, selected: None }
    }

    /// Selects a row; clearing the selection also scrolls back to the top.
    pub fn select(&mut self, index: Option<usize>)
        ensures
            final(self).selected == index,
            final(self).offset == if index is None {
                0
            } else {
                old(self).offset
            },
    {
        self.selected = index;
        if index.is_none() {
            self.offset = 0;
        }
    }
}

/// A table's state for one tab: selection, filter and sort.
pub struct TabState {
    pub table: TableState,
    /// The key of the selected row, so that the selection follows the item when rows move.
    pub selected_key: Option<String>,
    pub filter: String,
    pub sort: SortKey,
    pub desc: bool,
}

pub struct TabV {
    pub table: TableState,
    pub selected_key: Option<Seq<char>>,
    pub filter: Seq<char>,
    pub sort: SortKey,
    pub desc: bool,
}

pub open spec fn opt_view(s: Option<String>) -> Option<Seq<char>> {
    match s {
        Some(t) => Some(t@),
        None => None,
    }
}

impl vstd::view::View for TabState {
    type V = TabV;

    open spec fn view(&self) -> TabV {
        TabV {
            table: self.table,
            selected_key: opt_view(self.selected_key),
            filter: self.filter@,
            sort: self.sort,
            desc: self.desc,
        }
    }
}

/// A dialog over the table.
pub enum Popup {
    Help,
    ConfirmKill { label: String, pids: Vec<u32> },
}

pub enum PopupV {
    Help,
    ConfirmKill { label: Seq<char>, pids: Seq<u32> },
}

impl vstd::view::View for Popup {
    type V = PopupV;

    open spec fn view(&self) -> PopupV {
        match self {
            Popup::Help => PopupV::Help,
            Popup::ConfirmKill { label, pids } => PopupV::ConfirmKill { label: label@, pids: pids@ },
        }
    }
}

/// A screen rectangle.
#[derive(Clone, Copy, PartialEq, Eq, Structural, Debug)]
pub struct Rect {
    pub x: u16,
    pub y: u16,
    pub width: u16,
    pub height: u16,
}

impl Rect {
    pub open spec fn spec_contains(self, column: u16, row: u16) -> bool {
        &&& column >= self.x
        &&& column < if self.x + self.width > u16::MAX {
            u16::MAX as int
        } else {
            self.x + self.width
        }
        &&& row >= self.y
        &&& row < if self.y + self.height > u16::MAX {
            u16::MAX as int
        } else {
            self.y + self.height
        }
    }

    /// Whether the cell at (`column`, `row`) lies inside; the right and bottom edges saturate
    /// at the largest coordinate.
    pub fn contains(self, column: u16, row: u16) -> (r: bool)
        ensures
            r == self.spec_contains(column, row),
    {
        column >= self.x && column < self.x.saturating_add(self.width) && row >= self.y && row
            < self.y.saturating_add(self.height)
    }

    /// The empty rectangle at the origin.
    pub fn zero() -> (r: Rect)
        ensures
            r == (Rect { x: 0, y: 0, width: 0, height: 0 }),
    {
        Rect { x: 0, y: 0, width: 0, height: 0 }
    }
}

/// Screen regions recorded during the last draw, used to route mouse clicks.
pub struct Areas {
    pub tabs: Vec<(Rect, Tab)>,
    pub table_header: Rect,
    pub table_body: Rect,
    pub header_columns: Vec<Rect>,
}

impl Areas {
    /// No regions yet.
    pub fn new() -> (a: Areas)
        ensures
            a.tabs@.len() == 0,
            a.header_columns@.len() == 0,
            a.table_header == (Rect { x: 0, y: 0, width: 0, height: 0 }),
            a.table_body == (Rect { x: 0, y: 0, width: 0, height: 0 }),
    {
        Areas { tabs: Vec::new(), table_header: Rect::zero(), table_body: Rect::zero(), header_columns: Vec::new() }
    }
}

/// The state of the task manager.
pub struct App {
    pub processes: Vec<ProcessInfo>,
    pub app_history: Vec<AppHistoryEntry>,
    /// Total installed memory in bytes (what memory shares are relative to).
    pub total_memory: u64,
    pub services: Vec<ServiceInfo>,
    pub startup_apps: Vec<StartupAppInfo>,
    pub tab: Tab,
    pub tabs: Vec<TabState>,
    pub editing_filter: bool,
    /// Group rows (process name groups, users) the user has expanded.
    pub expanded: Vec<String>,
    /// Section headers ("Apps", "Background processes") the user has collapsed.
    pub collapsed: Vec<String>,
    pub popup: Option<Popup>,
    /// The footer message and the time (in milliseconds) it was set.
    pub status: Option<(String, u64)>,
    pub areas: Areas,
    pub should_quit: bool,
    pub interval: Duration,
}

/// The state as the contracts see it.
pub struct AppV {
    pub processes: Seq<ProcessInfo>,
    pub app_history: Seq<AppHistoryEntry>,
    pub total_memory: u64,
    pub services: Seq<ServiceInfo>,
    pub startup_apps: Seq<StartupAppInfo>,
    pub tab: Tab,
    pub tabs: Seq<TabV>,
    pub editing_filter: bool,
    pub expanded: Set<Seq<char>>,
    pub collapsed: Set<Seq<char>>,
    pub popup: Option<PopupV>,
    pub status: Option<(Seq<char>, u64)>,
    pub should_quit: bool,
}

pub open spec fn popup_view(p: Option<Popup>) -> Option<PopupV> {
    match p {
        Some(q) => Some(q@),
        None => None,
    }
}

pub open spec fn status_view(s: Option<(String, u64)>) -> Option<(Seq<char>, u64)> {
    match s {
        Some((m, t)) => Some((m@, t)),
        None => None,
    }
}

impl vstd::view::View for App {
    type V = AppV;

    open spec fn view(&self) -> AppV {
        AppV {
            processes: self.processes@,
            app_history: self.app_history@,
            total_memory: self.total_memory,
            services: self.services@,
            startup_apps: self.startup_apps@,
            tab: self.tab,
            tabs: self.tabs@.map_values(|t: TabState| t@),
            editing_filter: self.editing_filter,
            expanded: crate::grouped::set_view(self.expanded@),
            collapsed: crate::grouped::set_view(self.collapsed@),
            popup: popup_view(self.popup),
            status: status_view(self.status),
            should_quit: self.should_quit,
        }
    }
}

impl AppV {
    /// One state per tab, and process totals that fit in 64 bits.
    pub open spec fn wf(self) -> bool {
        &&& self.tabs.len() == TAB_COUNT
        &&& totals_fit(self.processes)
    }

    /// The state of the current tab.
    pub open spec fn cur(self) -> TabV {
        self.tabs[self.tab.spec_index()]
    }

    /// The same state with the current tab's state replaced.
    pub open spec fn with_cur(self, t: TabV) -> AppV {
        AppV { tabs: self.tabs.update(self.tab.spec_index(), t), ..self }
    }
}

impl App {
    pub open spec fn wf(&self) -> bool {
        self@.wf()
    }
}

/// A new tab state: nothing selected, no filter, the tab's default sort.
pub open spec fn fresh_tab(t: Tab) -> TabV {
    TabV {
        table: TableState { offset: 0, selected: None },
        selected_key: None,
        filter: Seq::empty(),
        sort: t.spec_default_sort().0,
        desc: t.spec_default_sort().1,
    }
}

impl App {
    /// A task manager showing the given data on the Processes tab, every tab with its
    /// default sort and nothing selected, filtered, expanded or collapsed.
    pub fn new(
        interval: Duration,
        processes: Vec<ProcessInfo>,
        app_history: Vec<AppHistoryEntry>,
        total_memory: u64,
        services: Vec<ServiceInfo>,
        startup_apps: Vec<StartupAppInfo>,
    ) -> (app: App)
        requires
            totals_fit(processes@),
        ensures
            app.wf(),
            app@.processes == processes@,
            app@.app_history == app_history@,
            app@.total_memory == total_memory,
            app@.services == services@,
            app@.startup_apps == startup_apps@,
            app@.tab == Tab::Processes,
            forall|i: int| 0 <= i < TAB_COUNT ==> #[trigger] app@.tabs[i] == fresh_tab(tab_at(i)),
            !app@.editing_filter,
            app@.expanded.is_empty(),
            app@.collapsed.is_empty(),
            app@.popup is None,
            app@.status is None,
            !app@.should_quit,
            app.interval == interval,
    {
        let mut tabs: Vec<TabState> = Vec::new();
        let mut i: usize = 0;
        while i < TAB_COUNT
            invariant
                i <= TAB_COUNT,
                tabs.len() == i,
                forall|j: int| 0 <= j < i ==> #[trigger] tabs@[j]@ == fresh_tab(tab_at(j)),
            decreases TAB_COUNT - i,
        {
            let t = Tab::from_index(i);
            let (sort, desc) = t.default_sort();
            tabs.push(TabState { table: TableState::new(), selected_key: None, filter: String::new(), sort, desc });
            i = i + 1;
        }
        let app = App {
            processes,
            app_history,
            total_memory,
            services,
            startup_apps,
            tab: Tab::Processes,
            tabs,
            editing_filter: false,
            expanded: Vec::new(),
            collapsed: Vec::new(),
            popup: None,
            status: None,
            areas: Areas::new(),
            should_quit: false,
            interval,
        };
        proof {
            assert(app@.expanded =~= Set::<Seq<char>>::empty());
            assert(app@.collapsed =~= Set::<Seq<char>>::empty());
        }
        app
    }

    /// The processes of the current snapshot.
    pub fn processes(&self) -> (ps: &Vec<ProcessInfo>)
        ensures
            ps@ == self@.processes,
    {
        &self.processes
    }

    /// Replaces the processes with a new snapshot's, keeping everything else.
    pub fn set_processes(&mut self, processes: Vec<ProcessInfo>)
        requires
            old(self).wf(),
            totals_fit(processes@),
        ensures
            final(self).wf(),
            final(self)@ == (AppV { processes: processes@, ..old(self)@ }),
            final(self).areas == old(self).areas,
            final(self).interval == old(self).interval,
    {
        self.processes = processes;
    }

    /// The state of a tab.
    pub fn tab_state(&self, tab: Tab) -> (s: &TabState)
        requires
            self.wf(),
        ensures
            s@ == self@.tabs[tab.spec_index()],
    {
        &self.tabs[tab.index()]
    }

    /// The state of a tab, to change it in place.
    pub fn tab_state_mut(&mut self, tab: Tab) -> (s: &mut TabState)
        requires
            old(self).wf(),
        ensures
            *s == old(self).tabs@[tab.spec_index()],
            final(self).tabs@ == old(self).tabs@.update(tab.spec_index(), *final(s)),
            final(self).processes == old(self).processes,
            final(self).app_history == old(self).app_history,
            final(self).total_memory == old(self).total_memory,
            final(self).services == old(self).services,
            final(self).startup_apps == old(self).startup_apps,
            final(self).tab == old(self).tab,
            final(self).editing_filter == old(self).editing_filter,
            final(self).expanded == old(self).expanded,
            final(self).collapsed == old(self).collapsed,
            final(self).popup == old(self).popup,
            final(self).status == old(self).status,
            final(self).should_quit == old(self).should_quit,
            final(self).areas == old(self).areas,
            final(self).interval == old(self).interval,
            final(self).wf(),
    {
        &mut self.tabs[tab.index()]
    }

    /// The sort column and direction of a tab.
    pub fn sort_for(&self, tab: Tab) -> (r: (SortKey, bool))
        requires
            self.wf(),
        ensures
            r.0 == self@.tabs[tab.spec_index()].sort,
            r.1 == self@.tabs[tab.spec_index()].desc,
    {
        let s = self.tab_state(tab);
        (s.sort, s.desc)
    }

    /// The footer message at time `now_ms`: the last one set, for four seconds.
    pub fn status(&self, now_ms: u64) -> (r: Option<&str>)
        ensures
            r matches Some(m) ==> self@.status matches Some((msg, at)) && m@ == msg,
            r is Some <==> (self@.status matches Some((msg, at)) && now_ms >= at && now_ms - at < STATUS_TIMEOUT_MS),
    {
        match &self.status {
            Some((msg, at)) => {
                if now_ms >= *at && now_ms - *at < STATUS_TIMEOUT_MS {
                    Some(msg.as_str())
                } else {
                    None
                }
            },
            None => None,
        }
    }
}

/// The table a tab shows for a state.
#[verifier::opaque]
pub open spec fn spec_build(a: AppV, tab: Tab) -> ViewSpec {
    let t = a.tabs[tab.spec_index()];
    match tab {
        Tab::Processes => processes_view(a.processes, t.filter, t.sort, t.desc, a.expanded, a.collapsed, a.total_memory),
        Tab::Details => details_view(a.processes, t.filter, t.sort, t.desc, a.total_memory),
        Tab::Users => users_view(a.processes, t.filter, t.sort, t.desc, a.expanded, a.total_memory),
        Tab::AppHistory => history_view(a.app_history, t.filter, t.sort, t.desc),
        Tab::Startup => startup_view(a.startup_apps, t.filter, t.sort, t.desc),
        Tab::Services => services_view(a.services, t.filter, t.sort, t.desc),
        Tab::Performance => ViewSpec { columns: Seq::empty(), rows: Seq::empty(), title: Seq::empty() },
    }
}

/// The rows of the current tab.
pub open spec fn cur_rows(a: AppV) -> Seq<RowSpec> {
    spec_build(a, a.tab).rows
}

/// Builds a tab's table from the current data, filter, sort and expansion.
pub fn build(app: &App, tab: Tab) -> (v: View)
    requires
        app.wf(),
    ensures
        v@ == spec_build(app@, tab),
{
    let t = app.tab_state(tab);
    proof {
        reveal(spec_build);
    }
    match tab {
        Tab::Processes => processes(
            &app.processes,
            t.filter.as_str(),
            t.sort,
            t.desc,
            &app.expanded,
            &app.collapsed,
            app.total_memory,
        ),
        Tab::Details => details(&app.processes, t.filter.as_str(), t.sort, t.desc, app.total_memory),
        Tab::Users => users(&app.processes, t.filter.as_str(), t.sort, t.desc, &app.expanded, app.total_memory),
        Tab::AppHistory => app_history(&app.app_history, t.filter.as_str(), t.sort, t.desc),
        Tab::Startup => startup(&app.startup_apps, t.filter.as_str(), t.sort, t.desc),
        Tab::Services => services(&app.services, t.filter.as_str(), t.sort, t.desc),
        Tab::Performance => {
            let v = View { columns: Vec::new(), rows: Vec::new(), title: String::new() };
            proof {
                assert(v@.columns =~= Seq::<crate::views::ColumnSpec>::empty());
                assert(v@.rows =~= Seq::<RowSpec>::empty());
            }
            v
        },
    }
}

/// The position of the first row with key `k`.
pub open spec fn first_key(rows: Seq<RowSpec>, k: Seq<char>) -> Option<int>
    decreases rows.len(),
{
    if rows.len() == 0 {
        None
    } else {
        match first_key(rows.drop_last(), k) {
            Some(i) => Some(i),
            None => if rows.last().key == k {
                Some(rows.len() - 1)
            } else {
                None
            },
        }
    }
}

pub(crate) proof fn lemma_first_key(rows: Seq<RowSpec>, k: Seq<char>)
    ensures
        first_key(rows, k) matches Some(i) ==> 0 <= i < rows.len() && rows[i].key == k && forall|j: int|
            0 <= j < i ==> rows[j].key != k,
        first_key(rows, k) is None ==> forall|j: int| 0 <= j < rows.len() ==> rows[j].key != k,
    decreases rows.len(),
{
    if rows.len() > 0 {
        let init = rows.drop_last();
        lemma_first_key(init, k);
        assert forall|j: int| 0 <= j < init.len() implies init[j] == rows[j] by {}
    }
}

pub open spec fn min_usize(a: usize, b: usize) -> usize {
    if a < b {
        a
    } else {
        b
    }
}

/// A tab's state re-resolved against its rows: no rows clears the selection; otherwise the
/// row with the remembered key is selected if there is one, else the remembered position
/// clamped to the last row, and the key of the selected row is remembered.
pub open spec fn synced(t: TabV, rows: Seq<RowSpec>) -> TabV {
    if rows.len() == 0 {
        TabV { table: TableState { offset: 0, selected: None }, ..t }
    } else {
        let by_key = match t.selected_key {
            Some(k) => first_key(rows, k),
            None => None,
        };
        let i: int = match by_key {
            Some(j) => j,
            None => min_usize(
                match t.table.selected {
                    Some(s) => s,
                    None => 0,
                },
                (rows.len() - 1) as usize,
            ) as int,
        };
        TabV {
            table: TableState { selected: Some(i as usize), ..t.table },
            selected_key: Some(rows[i].key),
            ..t
        }
    }
}

/// Row `idx` selected, clamped to the last row (nothing changes without rows).
pub open spec fn selected_at(t: TabV, rows: Seq<RowSpec>, idx: usize) -> TabV {
    if rows.len() == 0 {
        t
    } else {
        let i = min_usize(idx, (rows.len() - 1) as usize);
        TabV {
            table: TableState { selected: Some(i), ..t.table },
            selected_key: Some(rows[i as int].key),
            ..t
        }
    }
}

fn find_key(rows: &Vec<ViewRow>, k: &String) -> (r: Option<usize>)
    ensures
        r matches Some(i) ==> first_key(rows@.map_values(|r: ViewRow| r@), k@) == Some(i as int),
        r is None ==> first_key(rows@.map_values(|r: ViewRow| r@), k@) is None,
{
    let ghost rs = rows@.map_values(|r: ViewRow| r@);
    proof {
        lemma_first_key(rs, k@);
    }
    let mut i: usize = 0;
    while i < rows.len()
        invariant
            i <= rows.len(),
            rs == rows@.map_values(|r: ViewRow| r@),
            forall|j: int| 0 <= j < i ==> rs[j].key != k@,
        decreases rows.len() - i,
    {
        if rows[i].key == *k {
            proof {
                lemma_first_key(rs, k@);
                if first_key(rs, k@) != Some(i as int) {
                    assert(rs[i as int].key == k@);
                }
            }
            return Some(i);
        }
        i = i + 1;
    }
    proof {
        lemma_first_key(rs, k@);
        if first_key(rs, k@) is Some {
            let j = first_key(rs, k@)->0;
            assert(rs[j].key == k@);
        }
    }
    None
}

impl TabState {
    /// A blank state: nothing selected, no filter, sorted by name ascending.
    fn placeholder() -> (t: TabState)
        ensures
            t@ == (TabV {
                table: TableState { offset: 0, selected: None },
                selected_key: None,
                filter: Seq::<char>::empty(),
                sort: SortKey::Name,
                desc: false,
            }),
    {
        TabState { table: TableState::new(), selected_key: None, filter: String::new(), sort: SortKey::Name, desc: false }
    }
}

impl App {
    /// Takes the current tab's state out, leaving a placeholder.
    fn take_cur(&mut self) -> (st: TabState)
        requires
            old(self).wf(),
        ensures
            st@ == old(self)@.cur(),
            final(self).tabs.len() == TAB_COUNT,
            final(self)@.processes == old(self)@.processes,
            forall|t: TabState| final(self)@.with_cur(t@) == #[trigger] old(self)@.with_cur(t@),
            final(self).tab == old(self).tab,
            final(self).areas == old(self).areas,
            final(self).interval == old(self).interval,
    {
        let i = self.tab.index();
        let mut st = TabState::placeholder();
        self.tabs.set_and_swap(i, &mut st);
        proof {
            assert forall|t: TabState| self@.with_cur(t@) == #[trigger] old(self)@.with_cur(t@) by {
                assert(self@.tabs.update(i as int, t@) =~= old(self)@.tabs.update(i as int, t@));
            }
        }
        st
    }

    /// Puts a state back as the current tab's.
    fn put_cur(&mut self, st: TabState)
        requires
            old(self).tabs.len() == TAB_COUNT,
        ensures
            final(self)@ == old(self)@.with_cur(st@),
            final(self).tabs.len() == TAB_COUNT,
            final(self).areas == old(self).areas,
            final(self).interval == old(self).interval,
    {
        let i = self.tab.index();
        self.tabs.set(i, st);
        proof {
            assert(self@.tabs =~= old(self)@.tabs.update(i as int, st@));
        }
    }

    /// Builds the current tab's table and re-resolves the selection against it, so that the
    /// highlighted row follows the same item as the list re-sorts.
    pub fn synced_view(&mut self) -> (v: View)
        requires
            old(self).wf(),
        ensures
            v@ == spec_build(old(self)@, old(self).tab),
            final(self)@ == old(self)@.with_cur(synced(old(self)@.cur(), v@.rows)),
            final(self).wf(),
            final(self).areas == old(self).areas,
            final(self).interval == old(self).interval,
    {
        let view = build(self, self.tab);
        let ghost rows = view@.rows;
        let mut st = self.take_cur();
        if view.rows.len() == 0 {
            st.table.select(None);
            self.put_cur(st);
            proof {
                assert(st@ == synced(old(self)@.cur(), rows));
            }
            return view;
        }
        let by_key = match &st.selected_key {
            Some(k) => find_key(&view.rows, k),
            None => None,
        };
        let idx = match by_key {
            Some(j) => j,
            None => {
                let s = match st.table.selected {
                    Some(x) => x,
                    None => 0,
                };
                if s < view.rows.len() - 1 {
                    s
                } else {
                    view.rows.len() - 1
                }
            },
        };
        proof {
            if by_key is Some {
                lemma_first_key(rows, st@.selected_key->0);
            }
        }
        st.table.select(Some(idx));
        st.selected_key = Some(view.rows[idx].key.clone());
        self.put_cur(st);
        proof {
            assert(st@ == synced(old(self)@.cur(), rows));
        }
        view
    }

    /// The selected row of the current tab.
    pub fn selected_index(&self) -> (r: Option<usize>)
        requires
            self.wf(),
        ensures
            r == self@.cur().table.selected,
    {
        self.tab_state(self.tab).table.selected
    }

    /// Selects row `idx` of `view`, clamped to the last row.
    pub fn select_index(&mut self, view: &View, idx: usize)
        requires
            old(self).wf(),
        ensures
            final(self)@ == old(self)@.with_cur(selected_at(old(self)@.cur(), view@.rows, idx)),
            final(self).wf(),
            final(self).areas == old(self).areas,
            final(self).interval == old(self).interval,
    {
        if view.rows.len() == 0 {
            proof {
                assert(old(self)@.tabs.update(old(self).tab.spec_index(), old(self)@.cur()) =~= old(self)@.tabs);
            }
            return;
        }
        let i = if idx < view.rows.len() - 1 {
            idx
        } else {
            view.rows.len() - 1
        };
        let mut st = self.take_cur();
        st.table.select(Some(i));
        st.selected_key = Some(view.rows[i].key.clone());
        self.put_cur(st);
        proof {
            assert(st@ == selected_at(old(self)@.cur(), view@.rows, idx));
        }
    }
}

/// `x + delta`, clamped to the range of `usize`.
pub open spec fn sat_add_signed(x: usize, delta: isize) -> usize {
    if x + delta < 0 {
        0
    } else if x + delta > usize::MAX {
        usize::MAX
    } else {
        (x + delta) as usize
    }
}

/// `x + delta`, clamped to the range of `usize` (what `usize::saturating_add_signed` computes).
pub fn saturating_add_signed(x: usize, delta: isize) -> (r: usize)
    ensures
        r == sat_add_signed(x, delta),
{
    let v: i128 = x as i128 + delta as i128;
    if v < 0 {
        0
    } else if v > usize::MAX as i128 {
        usize::MAX
    } else {
        v as usize
    }
}

/// The selection after moving it by `delta` rows: first re-resolved against the rows, then
/// moved and clamped to the rows.
#[verifier::opaque]
pub open spec fn moved(a: AppV, delta: isize) -> AppV {
    let rows = cur_rows(a);
    let t = synced(a.cur(), rows);
    let current = match t.table.selected {
        Some(i) => i,
        None => 0,
    };
    a.with_cur(selected_at(t, rows, sat_add_signed(current, delta)))
}

/// The selection on row `idx` of the re-resolved rows.
#[verifier::opaque]
pub open spec fn jumped(a: AppV, idx: usize) -> AppV {
    let rows = cur_rows(a);
    a.with_cur(selected_at(synced(a.cur(), rows), rows, idx))
}

pub open spec fn spec_set_tab(a: AppV, tab: Tab) -> AppV {
    AppV { tab, editing_filter: false, ..a }
}

/// The tab `delta` places along the tab bar, wrapping around.
pub open spec fn spec_cycle_tab(a: AppV, delta: int) -> AppV {
    spec_set_tab(a, tab_at((a.tab.spec_index() + delta) % (TAB_COUNT as int)))
}

/// Sorting by a column: the current column flips direction; another column starts in its
/// natural direction.
pub open spec fn sorted_by(t: TabV, key: SortKey) -> TabV {
    if t.sort == key {
        TabV { desc: !t.desc, ..t }
    } else {
        TabV { sort: key, desc: key.spec_default_desc(), ..t }
    }
}

pub(crate) proof fn lemma_with_cur_twice(a: AppV, t1: TabV, t2: TabV)
    requires
        a.tabs.len() == TAB_COUNT,
    ensures
        a.with_cur(t1).with_cur(t2) == a.with_cur(t2),
        a.with_cur(t1).cur() == t1,
        a.wf() ==> a.with_cur(t1).wf(),
{
    assert(0 <= a.tab.spec_index() < TAB_COUNT);
    assert(a.tabs.update(a.tab.spec_index(), t1).update(a.tab.spec_index(), t2) =~= a.tabs.update(a.tab.spec_index(), t2));
}

impl App {
    fn move_selection(&mut self, delta: isize)
        requires
            old(self).wf(),
        ensures
            final(self)@ == moved(old(self)@, delta),
            final(self).wf(),
            final(self).areas == old(self).areas,
            final(self).interval == old(self).interval,
    {
        proof {
            reveal(moved);
        }
        let view = self.synced_view();
        let current = match self.selected_index() {
            Some(i) => i,
            None => 0,
        };
        proof {
            lemma_with_cur_twice(old(self)@, synced(old(self)@.cur(), view@.rows), self@.cur());
        }
        let target = saturating_add_signed(current, delta);
        self.select_index(&view, target);
        proof {
            let t = synced(old(self)@.cur(), view@.rows);
            lemma_with_cur_twice(old(self)@, t, selected_at(t, view@.rows, target));
        }
    }

    fn select_first(&mut self)
        requires
            old(self).wf(),
        ensures
            final(self)@ == jumped(old(self)@, 0),
            final(self).wf(),
            final(self).areas == old(self).areas,
            final(self).interval == old(self).interval,
    {
        proof {
            reveal(jumped);
        }
        let view = self.synced_view();
        self.select_index(&view, 0);
        proof {
            let t = synced(old(self)@.cur(), view@.rows);
            lemma_with_cur_twice(old(self)@, t, selected_at(t, view@.rows, 0));
        }
    }

    fn select_last(&mut self)
        requires
            old(self).wf(),
        ensures
            final(self)@ == jumped(old(self)@, usize::MAX),
            final(self).wf(),
            final(self).areas == old(self).areas,
            final(self).interval == old(self).interval,
    {
        proof {
            reveal(jumped);
        }
        let view = self.synced_view();
        self.select_index(&view, usize::MAX);
        proof {
            let t = synced(old(self)@.cur(), view@.rows);
            lemma_with_cur_twice(old(self)@, t, selected_at(t, view@.rows, usize::MAX));
        }
    }

    /// Rows per page: the height of the table body, at least one.
    pub fn page_size(&self) -> (n: isize)
        ensures
            n == if self.areas.table_body.height > 1 {
                self.areas.table_body.height as int
            } else {
                1
            },
    {
        if self.areas.table_body.height > 1 {
            self.areas.table_body.height as isize
        } else {
            1
        }
    }

    /// Switches to a tab and stops editing the filter.
    pub fn set_tab(&mut self, tab: Tab)
        requires
            old(self).wf(),
        ensures
            final(self)@ == spec_set_tab(old(self)@, tab),
            final(self).wf(),
            final(self).areas == old(self).areas,
            final(self).interval == old(self).interval,
    {
        self.tab = tab;
        self.editing_filter = false;
    }

    /// Moves `delta` tabs along the tab bar, wrapping around.
    pub fn cycle_tab(&mut self, delta: isize)
        requires
            old(self).wf(),
        ensures
            final(self)@ == spec_cycle_tab(old(self)@, delta as int),
            final(self).wf(),
            final(self).areas == old(self).areas,
            final(self).interval == old(self).interval,
    {
        // `delta` reduced to 0..7, the same step along the bar.
        let step: usize = if delta >= 0 {
            (delta as usize) % 7
        } else {
            6 - ((-(delta + 1)) as usize) % 7
        };
        let idx = (self.tab.index() + step) % 7;
        proof {
            let i = self.tab.spec_index();
            if delta >= 0 {
                assert(step == delta % 7);
            } else {
                let e: int = -(delta + 1);
                assert(step == 6 - e % 7);
                assert(delta == -e - 1);
                assert((-e - 1) % 7 == 6 - e % 7) by (nonlinear_arith)
                    requires
                        e >= 0,
                ;
            }
            assert((i + delta) % 7 == (i + delta % 7) % 7) by (nonlinear_arith);
        }
        self.set_tab(Tab::from_index(idx));
    }

    /// Sorts the current tab by a column, or flips the direction if it already is.
    pub fn sort_by(&mut self, key: SortKey)
        requires
            old(self).wf(),
        ensures
            final(self)@ == old(self)@.with_cur(sorted_by(old(self)@.cur(), key)),
            final(self).wf(),
            final(self).areas == old(self).areas,
            final(self).interval == old(self).interval,
    {
        let mut st = self.take_cur();
        if st.sort == key {
            st.desc = !st.desc;
        } else {
            st.sort = key;
            st.desc = key.default_desc();
        }
        self.put_cur(st);
        proof {
            assert(st@ == sorted_by(old(self)@.cur(), key));
        }
    }
}

/// The sortable columns, in order.
pub open spec fn column_sorts(cols: Seq<ColumnSpec>) -> Seq<SortKey>
    decreases cols.len(),
{
    if cols.len() == 0 {
        Seq::empty()
    } else {
        let r = column_sorts(cols.drop_last());
        match cols.last().sort {
            Some(k) => r.push(k),
            None => r,
        }
    }
}

/// The first position of `k` in `keys`.
pub open spec fn position_of(keys: Seq<SortKey>, k: SortKey) -> Option<int>
    decreases keys.len(),
{
    if keys.len() == 0 {
        None
    } else {
        match position_of(keys.drop_last(), k) {
            Some(i) => Some(i),
            None => if keys.last() == k {
                Some(keys.len() - 1)
            } else {
                None
            },
        }
    }
}

pub(crate) proof fn lemma_position_of(keys: Seq<SortKey>, k: SortKey)
    ensures
        position_of(keys, k) matches Some(i) ==> 0 <= i < keys.len() && keys[i] == k && forall|j: int|
            0 <= j < i ==> keys[j] != k,
        position_of(keys, k) is None ==> forall|j: int| 0 <= j < keys.len() ==> keys[j] != k,
    decreases keys.len(),
{
    if keys.len() > 0 {
        let init = keys.drop_last();
        lemma_position_of(init, k);
        assert forall|j: int| 0 <= j < init.len() implies init[j] == keys[j] by {}
    }
}

fn position_exec(keys: &Vec<SortKey>, k: SortKey) -> (r: Option<usize>)
    ensures
        r matches Some(i) ==> position_of(keys@, k) == Some(i as int),
        r is None ==> position_of(keys@, k) is None,
{
    proof {
        lemma_position_of(keys@, k);
    }
    let mut i: usize = 0;
    while i < keys.len()
        invariant
            i <= keys.len(),
            forall|j: int| 0 <= j < i ==> keys@[j] != k,
        decreases keys.len() - i,
    {
        if keys[i] == k {
            proof {
                lemma_position_of(keys@, k);
            }
            return Some(i);
        }
        i = i + 1;
    }
    proof {
        lemma_position_of(keys@, k);
        if position_of(keys@, k) is Some {
            let j = position_of(keys@, k)->0;
            assert(keys@[j] == k);
        }
    }
    None
}

/// The column after the current sort column among the sortable ones, wrapping around; the
/// first one when the current column is not among them.
pub open spec fn next_sort(keys: Seq<SortKey>, current: SortKey) -> SortKey {
    match position_of(keys, current) {
        Some(i) => keys[(i + 1) % (keys.len() as int)],
        None => keys[0],
    }
}

#[verifier::opaque]
pub open spec fn spec_cycle_sort(a: AppV) -> AppV {
    let keys = column_sorts(spec_build(a, a.tab).columns);
    if keys.len() == 0 {
        a
    } else {
        a.with_cur(sorted_by(a.cur(), next_sort(keys, a.cur().sort)))
    }
}

/// Expanding or collapsing a row: `want` is `Some(true)` to open, `Some(false)` to close and
/// `None` to flip. Groups are closed unless expanded; sections are open unless collapsed.
pub open spec fn toggled(a: AppV, row: RowSpec, want: Option<bool>) -> AppV {
    match row.toggle {
        Toggle::Expand => {
            let open = a.expanded.contains(row.key);
            let target = match want {
                Some(w) => w,
                None => !open,
            };
            if target {
                AppV { expanded: a.expanded.insert(row.key), ..a }
            } else {
                AppV { expanded: a.expanded.remove(row.key), ..a }
            }
        },
        Toggle::Section => {
            let open = !a.collapsed.contains(row.key);
            let target = match want {
                Some(w) => w,
                None => !open,
            };
            if target {
                AppV { collapsed: a.collapsed.remove(row.key), ..a }
            } else {
                AppV { collapsed: a.collapsed.insert(row.key), ..a }
            }
        },
        Toggle::Leaf => a,
    }
}

/// The state with the current tab's selection re-resolved.
pub open spec fn resynced(a: AppV) -> AppV {
    a.with_cur(synced(a.cur(), cur_rows(a)))
}

#[verifier::opaque]
pub open spec fn spec_toggle_selected(a: AppV, want: Option<bool>) -> AppV {
    let a1 = resynced(a);
    match a1.cur().table.selected {
        Some(i) => toggled(a1, cur_rows(a)[i as int], want),
        None => a1,
    }
}

pub open spec fn nothing_to_end() -> Seq<char> {
    "Nothing to end here — select a process"@
}

/// "End task" on the selected row: asks for confirmation, or says there is nothing to end.
#[verifier::opaque]
pub open spec fn spec_request_kill(a: AppV, now: u64) -> AppV {
    let a1 = resynced(a);
    match a1.cur().table.selected {
        Some(i) => {
            let row = cur_rows(a)[i as int];
            if row.pids.len() == 0 {
                AppV { status: Some((nothing_to_end(), now)), ..a1 }
            } else {
                AppV { popup: Some(PopupV::ConfirmKill { label: row.label, pids: row.pids }), ..a1 }
            }
        },
        None => a1,
    }
}

proof fn lemma_synced_in_range(t: TabV, rows: Seq<RowSpec>)
    ensures
        synced(t, rows).table.selected matches Some(i) ==> i < rows.len(),
        rows.len() > 0 ==> synced(t, rows).table.selected is Some,
{
    if rows.len() > 0 {
        if let Some(k) = t.selected_key {
            lemma_first_key(rows, k);
        }
    }
}

/// Adds a text to a set of strings.
fn set_insert(v: &mut Vec<String>, k: &String)
    ensures
        set_view(final(v)@) == set_view(old(v)@).insert(k@),
{
    if !in_set_exec(v, k) {
        v.push(k.clone());
        proof {
            assert(set_view(v@) =~= set_view(old(v)@).insert(k@)) by {
                assert(v@[v.len() - 1]@ == k@);
                assert forall|x: Seq<char>| set_view(old(v)@).contains(x) implies set_view(v@).contains(x) by {
                    let i = choose|i: int| 0 <= i < old(v)@.len() && old(v)@[i]@ == x;
                    assert(v@[i] == old(v)@[i]);
                }
                assert forall|x: Seq<char>| set_view(v@).contains(x) implies set_view(old(v)@).insert(k@).contains(x) by {
                    let i = choose|i: int| 0 <= i < v@.len() && v@[i]@ == x;
                    if i < old(v)@.len() {
                        assert(v@[i] == old(v)@[i]);
                    }
                }
            }
        }
    } else {
        proof {
            assert(set_view(v@) =~= set_view(old(v)@).insert(k@));
        }
    }
}

/// Removes a text from a set of strings.
fn set_remove(v: &mut Vec<String>, k: &String)
    ensures
        set_view(final(v)@) == set_view(old(v)@).remove(k@),
{
    let mut kept: Vec<String> = Vec::new();
    let mut i: usize = 0;
    while i < v.len()
        invariant
            i <= v.len(),
            forall|x: Seq<char>| set_view(kept@).contains(x) <==> (x != k@ && exists|j: int| 0 <= j < i && v@[j]@ == x),
        decreases v.len() - i,
    {
        if v[i] != *k {
            let ghost before = kept@;
            kept.push(v[i].clone());
            proof {
                assert forall|x: Seq<char>| set_view(kept@).contains(x) <==> (x != k@ && exists|j: int| 0 <= j < i + 1 && v@[j]@ == x) by {
                    if set_view(kept@).contains(x) {
                        let q = choose|q: int| 0 <= q < kept@.len() && kept@[q]@ == x;
                        if q < before.len() {
                            assert(set_view(before).contains(x));
                        }
                    }
                    if x != k@ && exists|j: int| 0 <= j < i + 1 && v@[j]@ == x {
                        let j = choose|j: int| 0 <= j < i + 1 && v@[j]@ == x;
                        if j < i {
                            assert(set_view(before).contains(x));
                            let q = choose|q: int| 0 <= q < before.len() && before[q]@ == x;
                            assert(kept@[q] == before[q]);
                        } else {
                            assert(kept@[kept@.len() - 1]@ == x);
                        }
                    }
                }
            }
        } else {
            proof {
                assert forall|x: Seq<char>| set_view(kept@).contains(x) <==> (x != k@ && exists|j: int| 0 <= j < i + 1 && v@[j]@ == x) by {
                    if x != k@ && exists|j: int| 0 <= j < i + 1 && v@[j]@ == x {
                        let j = choose|j: int| 0 <= j < i + 1 && v@[j]@ == x;
                        assert(j < i);
                    }
                }
            }
        }
        i = i + 1;
    }
    *v = kept;
    proof {
        assert(set_view(v@) =~= set_view(old(v)@).remove(k@));
    }
}

impl App {
    /// Sets the footer message, stamped with the time `now_ms`.
    pub fn set_status(&mut self, msg: String, now_ms: u64)
        ensures
            final(self)@ == (AppV { status: Some((msg@, now_ms)), ..old(self)@ }),
            final(self).tabs == old(self).tabs,
            final(self).areas == old(self).areas,
            final(self).interval == old(self).interval,
    {
        self.status = Some((msg, now_ms));
    }

    /// Sorts the current tab by the next sortable column of its table.
    pub fn cycle_sort(&mut self)
        requires
            old(self).wf(),
        ensures
            final(self)@ == spec_cycle_sort(old(self)@),
            final(self).wf(),
            final(self).areas == old(self).areas,
            final(self).interval == old(self).interval,
    {
        proof {
            reveal(spec_cycle_sort);
        }
        let view = build(self, self.tab);
        let keys = build_columns_sorts(&view.columns);
        if keys.len() == 0 {
            return;
        }
        let current = self.tab_state(self.tab).sort;
        let found = position_exec(&keys, current);
        proof {
            lemma_position_of(keys@, current);
        }
        let next = match found {
            Some(p) => keys[if p + 1 < keys.len() { p + 1 } else { 0 }],
            None => keys[0],
        };
        proof {
            if let Some(p) = found {
                if p + 1 < keys.len() {
                    vstd::arithmetic::div_mod::lemma_small_mod((p + 1) as nat, keys.len() as nat);
                } else {
                    assert(p + 1 == keys.len());
                    vstd::arithmetic::div_mod::lemma_mod_self_0(keys.len() as int);
                }
            }
            assert(next == next_sort(keys@, current));
        }
        self.sort_by(next);
    }

    /// Expands or collapses a row: `want` is `Some(true)` to open, `Some(false)` to close,
    /// `None` to flip.
    pub fn toggle_row(&mut self, row: &ViewRow, want: Option<bool>)
        requires
            old(self).wf(),
        ensures
            final(self)@ == toggled(old(self)@, row@, want),
            final(self).wf(),
            final(self).areas == old(self).areas,
            final(self).interval == old(self).interval,
    {
        match row.toggle {
            Toggle::Expand => {
                let open = in_set_exec(&self.expanded, &row.key);
                let target = match want {
                    Some(w) => w,
                    None => !open,
                };
                if target {
                    set_insert(&mut self.expanded, &row.key);
                } else {
                    set_remove(&mut self.expanded, &row.key);
                }
            },
            Toggle::Section => {
                let open = !in_set_exec(&self.collapsed, &row.key);
                let target = match want {
                    Some(w) => w,
                    None => !open,
                };
                if target {
                    set_remove(&mut self.collapsed, &row.key);
                } else {
                    set_insert(&mut self.collapsed, &row.key);
                }
            },
            Toggle::Leaf => {},
        }
    }

    fn toggle_selected(&mut self, want: Option<bool>)
        requires
            old(self).wf(),
        ensures
            final(self)@ == spec_toggle_selected(old(self)@, want),
            final(self).wf(),
            final(self).areas == old(self).areas,
            final(self).interval == old(self).interval,
    {
        proof {
            reveal(spec_toggle_selected);
        }
        let view = self.synced_view();
        proof {
            lemma_synced_in_range(old(self)@.cur(), view@.rows);
            lemma_with_cur_twice(old(self)@, synced(old(self)@.cur(), view@.rows), synced(old(self)@.cur(), view@.rows));
        }
        match self.selected_index() {
            Some(idx) => {
                self.toggle_row(&view.rows[idx], want);
            },
            None => {},
        }
    }

    fn request_kill(&mut self, now_ms: u64)
        requires
            old(self).wf(),
        ensures
            final(self)@ == spec_request_kill(old(self)@, now_ms),
            final(self).wf(),
            final(self).areas == old(self).areas,
            final(self).interval == old(self).interval,
    {
        proof {
            reveal(spec_request_kill);
        }
        let view = self.synced_view();
        proof {
            lemma_synced_in_range(old(self)@.cur(), view@.rows);
            lemma_with_cur_twice(old(self)@, synced(old(self)@.cur(), view@.rows), synced(old(self)@.cur(), view@.rows));
        }
        match self.selected_index() {
            Some(idx) => {
                let row = &view.rows[idx];
                if row.pids.len() == 0 {
                    self.set_status(String::from_str("Nothing to end here — select a process"), now_ms);
                } else {
                    self.popup = Some(Popup::ConfirmKill { label: row.label.clone(), pids: row.pids.clone() });
                }
            },
            None => {},
        }
    }
}

/// What the front end has to carry out after an event.
pub enum Action {
    Nothing,
    /// End these processes, then report back with `confirm_kill`.
    EndProcesses { label: String, pids: Vec<u32> },
    /// Reset the collected app history, then report back with `app_history_reset`.
    ResetAppHistory,
    /// Reload the service and startup lists, then report back with `lists_reloaded`.
    ReloadLists,
}

pub enum ActionV {
    Nothing,
    EndProcesses { label: Seq<char>, pids: Seq<u32> },
    ResetAppHistory,
    ReloadLists,
}

impl vstd::view::View for Action {
    type V = ActionV;

    open spec fn view(&self) -> ActionV {
        match self {
            Action::Nothing => ActionV::Nothing,
            Action::EndProcesses { label, pids } => ActionV::EndProcesses { label: label@, pids: pids@ },
            Action::ResetAppHistory => ActionV::ResetAppHistory,
            Action::ReloadLists => ActionV::ReloadLists,
        }
    }
}

/// The PIDs that were ended (`ended[i]` tells whether `pids[i]` was).
pub open spec fn ended_set(pids: Seq<u32>, ended: Seq<bool>) -> Set<u32> {
    Set::new(|x: u32| exists|i: int| 0 <= i < pids.len() && ended[i] && pids[i] == x)
}

/// "Ended Firefox", or how many of how many processes were ended when some were not.
pub open spec fn kill_message(label: Seq<char>, ended: nat, total: nat) -> Seq<char> {
    if ended == total {
        "Ended "@ + label
    } else {
        "Ended "@ + digits(ended) + " of "@ + digits(total) + " process(es) for "@ + label
            + " (others may need higher privileges)"@
    }
}

/// After ending processes: the message, and the ended processes hidden right away (an early
/// refresh would add an unevenly spaced sample to the graphs).
pub open spec fn spec_confirm_kill(a: AppV, label: Seq<char>, pids: Seq<u32>, ended: Seq<bool>, now: u64) -> AppV {
    let gone = ended_set(pids, ended);
    AppV {
        processes: survivors(a.processes, gone),
        status: Some((kill_message(label, gone.len(), pids.len()), now)),
        ..a
    }
}

fn contains_u32(v: &Vec<u32>, x: u32) -> (r: bool)
    ensures
        r == v@.contains(x),
{
    let mut i: usize = 0;
    while i < v.len()
        invariant
            i <= v.len(),
            forall|j: int| 0 <= j < i ==> v@[j] != x,
        decreases v.len() - i,
    {
        if v[i] == x {
            return true;
        }
        i = i + 1;
    }
    false
}

impl App {
    /// Records the outcome of ending processes: `ended[i]` tells whether `pids[i]` was ended.
    pub fn confirm_kill(&mut self, label: &str, pids: &Vec<u32>, ended: &Vec<bool>, now_ms: u64)
        requires
            old(self).wf(),
            ended.len() == pids.len(),
        ensures
            final(self)@ == spec_confirm_kill(old(self)@, label@, pids@, ended@, now_ms),
            final(self).wf(),
            final(self).areas == old(self).areas,
            final(self).interval == old(self).interval,
    {
        let mut gone: Vec<u32> = Vec::new();
        let mut i: usize = 0;
        while i < pids.len()
            invariant
                i <= pids.len(),
                ended.len() == pids.len(),
                gone@.no_duplicates(),
                gone@.to_set() =~= Set::new(|x: u32| exists|j: int| 0 <= j < i && ended@[j] && pids@[j] == x),
            decreases pids.len() - i,
        {
            if ended[i] && !contains_u32(&gone, pids[i]) {
                let ghost before = gone@;
                gone.push(pids[i]);
                proof {
                    before.lemma_push_to_set_commute(pids@[i as int]);
                }
            }
            proof {
                assert(Set::new(|x: u32| exists|j: int| 0 <= j < i + 1 && ended@[j] && pids@[j] == x) =~= if ended@[i as int] {
                    Set::new(|x: u32| exists|j: int| 0 <= j < i && ended@[j] && pids@[j] == x).insert(pids@[i as int])
                } else {
                    Set::new(|x: u32| exists|j: int| 0 <= j < i && ended@[j] && pids@[j] == x)
                });
            }
            i = i + 1;
        }
        proof {
            gone@.unique_seq_to_set();
            assert(gone@.to_set() =~= ended_set(pids@, ended@));
        }
        let n_gone = gone.len();
        let mut kept: Vec<ProcessInfo> = Vec::new();
        let mut k: usize = 0;
        while k < self.processes.len()
            invariant
                k <= self.processes.len(),
                self@ == old(self)@,
                gone@.to_set() == ended_set(pids@, ended@),
                kept@ == survivors(self.processes@.take(k as int), ended_set(pids@, ended@)),
            decreases self.processes.len() - k,
        {
            proof {
                assert(self.processes@.take(k + 1).drop_last() =~= self.processes@.take(k as int));
            }
            if !contains_u32(&gone, self.processes[k].pid) {
                kept.push(self.processes[k].clone());
            }
            k = k + 1;
        }
        proof {
            assert(self.processes@.take(k as int) =~= self.processes@);
            lemma_survivors_fit(self.processes@, ended_set(pids@, ended@));
        }
        self.processes = kept;
        let mut msg = String::from_str("Ended ");
        if n_gone == pids.len() {
            push_str(&mut msg, label);
        } else {
            push_digits(&mut msg, n_gone as u128);
            push_str(&mut msg, " of ");
            push_digits(&mut msg, pids.len() as u128);
            push_str(&mut msg, " process(es) for ");
            push_str(&mut msg, label);
            push_str(&mut msg, " (others may need higher privileges)");
        }
        proof {
            assert(msg@ =~= kill_message(label@, ended_set(pids@, ended@).len(), pids@.len()));
        }
        self.set_status(msg, now_ms);
    }

    /// Records that the app history was reset: the list is emptied right away.
    pub fn app_history_reset(&mut self, now_ms: u64)
        requires
            old(self).wf(),
        ensures
            final(self)@ == (AppV {
                app_history: Seq::empty(),
                status: Some(("App history reset"@, now_ms)),
                ..old(self)@
            }),
            final(self).wf(),
            final(self).areas == old(self).areas,
            final(self).interval == old(self).interval,
    {
        self.app_history = Vec::new();
        self.set_status(String::from_str("App history reset"), now_ms);
    }

    /// Records freshly loaded service and startup lists.
    pub fn lists_reloaded(&mut self, services: Vec<ServiceInfo>, startup_apps: Vec<StartupAppInfo>, now_ms: u64)
        requires
            old(self).wf(),
        ensures
            final(self)@ == (AppV {
                services: services@,
                startup_apps: startup_apps@,
                status: Some(("Reloaded"@, now_ms)),
                ..old(self)@
            }),
            final(self).wf(),
            final(self).areas == old(self).areas,
            final(self).interval == old(self).interval,
    {
        self.services = services;
        self.startup_apps = startup_apps;
        self.set_status(String::from_str("Reloaded"), now_ms);
    }
}

/// A key, as far as the task manager tells keys apart.
#[derive(Clone, Copy, PartialEq, Eq, Structural, Debug)]
pub enum KeyCode {
    Char(char),
    Enter,
    Esc,
    Backspace,
    Tab,
    BackTab,
    F(u8),
    Up,
    Down,
    Left,
    Right,
    PageUp,
    PageDown,
    Home,
    End,
    Delete,
    Other,
}

/// A key press (or repeat), with whether Control was held.
#[derive(Clone, Copy, PartialEq, Eq, Structural, Debug)]
pub struct Key {
    pub code: KeyCode,
    pub ctrl: bool,
}

/// What a mouse event did.
#[derive(Clone, Copy, PartialEq, Eq, Structural, Debug)]
pub enum MouseKind {
    ScrollDown,
    ScrollUp,
    /// The left button went down.
    LeftDown,
    Other,
}

/// A mouse event at a screen cell.
#[derive(Clone, Copy, PartialEq, Eq, Structural, Debug)]
pub struct Mouse {
    pub kind: MouseKind,
    pub column: u16,
    pub row: u16,
}

/// An input event: a key press, a mouse event, or anything else (key releases, resizes, ...).
#[derive(Clone, Copy, PartialEq, Eq, Structural, Debug)]
pub enum Event {
    Key(Key),
    Mouse(Mouse),
    Other,
}

/// A key while a dialog is open; the dialog is already closed in `a`. Help closes on any
/// key; the end-task prompt ends the processes on y or Enter, cancels on n, q or Esc, and
/// stays open on anything else.
pub open spec fn popup_step(a: AppV, p: PopupV, key: Key) -> (AppV, ActionV) {
    match p {
        PopupV::Help => (a, ActionV::Nothing),
        PopupV::ConfirmKill { label, pids } => match key.code {
            KeyCode::Char('y') | KeyCode::Char('Y') | KeyCode::Enter => (a, ActionV::EndProcesses { label, pids }),
            KeyCode::Char('n') | KeyCode::Char('N') | KeyCode::Char('q') | KeyCode::Esc => (a, ActionV::Nothing),
            _ => (AppV { popup: Some(p), ..a }, ActionV::Nothing),
        },
    }
}

pub open spec fn with_filter(a: AppV, f: Seq<char>) -> AppV {
    a.with_cur(TabV { filter: f, ..a.cur() })
}

/// A key while typing the filter: Enter applies it, Esc clears it, Backspace deletes a
/// character, other characters are typed.
pub open spec fn filter_step(a: AppV, key: Key) -> AppV {
    match key.code {
        KeyCode::Enter => AppV { editing_filter: false, ..a },
        KeyCode::Esc => AppV { editing_filter: false, ..with_filter(a, Seq::empty()) },
        KeyCode::Backspace => with_filter(
            a,
            if a.cur().filter.len() > 0 {
                a.cur().filter.drop_last()
            } else {
                a.cur().filter
            },
        ),
        KeyCode::Char(c) => with_filter(a, a.cur().filter.push(c)),
        _ => a,
    }
}

/// A key in the table (no dialog, not typing the filter). `page` is the number of rows per
/// page.
pub open spec fn main_step(a: AppV, key: Key, page: int, now: u64) -> (AppV, ActionV) {
    match key.code {
        KeyCode::Char('q') => (AppV { should_quit: true, ..a }, ActionV::Nothing),
        KeyCode::Char('?') | KeyCode::F(1) => (AppV { popup: Some(PopupV::Help), ..a }, ActionV::Nothing),
        KeyCode::Esc => (with_filter(a, Seq::empty()), ActionV::Nothing),
        KeyCode::Tab => (spec_cycle_tab(a, 1), ActionV::Nothing),
        KeyCode::BackTab => (spec_cycle_tab(a, -1), ActionV::Nothing),
        KeyCode::Char(c) if '1' <= c && c <= '7' => (spec_set_tab(a, tab_at((c as u32) - ('1' as u32))), ActionV::Nothing),
        KeyCode::Char(c) if (c == '/' || c == 'f') && a.tab != Tab::Performance => (AppV { editing_filter: true, ..a }, ActionV::Nothing),
        KeyCode::Down | KeyCode::Char('j') => (moved(a, 1isize), ActionV::Nothing),
        KeyCode::Up | KeyCode::Char('k') => (moved(a, -1isize), ActionV::Nothing),
        KeyCode::PageDown => (moved(a, page as isize), ActionV::Nothing),
        KeyCode::PageUp => (moved(a, (-page) as isize), ActionV::Nothing),
        KeyCode::Home | KeyCode::Char('g') => (jumped(a, 0), ActionV::Nothing),
        KeyCode::End | KeyCode::Char('G') => (jumped(a, usize::MAX), ActionV::Nothing),
        KeyCode::Enter | KeyCode::Char(' ') => (spec_toggle_selected(a, None), ActionV::Nothing),
        KeyCode::Right | KeyCode::Char('l') => (spec_toggle_selected(a, Some(true)), ActionV::Nothing),
        KeyCode::Left | KeyCode::Char('h') => (spec_toggle_selected(a, Some(false)), ActionV::Nothing),
        KeyCode::Char('s') => (spec_cycle_sort(a), ActionV::Nothing),
        KeyCode::Char('S') => (a.with_cur(TabV { desc: !a.cur().desc, ..a.cur() }), ActionV::Nothing),
        KeyCode::Delete | KeyCode::Char('x') => (spec_request_kill(a, now), ActionV::Nothing),
        KeyCode::Char('r') if a.tab == Tab::AppHistory => (a, ActionV::ResetAppHistory),
        KeyCode::Char('r') if a.tab == Tab::Services || a.tab == Tab::Startup => (a, ActionV::ReloadLists),
        _ => (a, ActionV::Nothing),
    }
}

/// How the state reacts to a key at time `now`: Ctrl+C quits from anywhere; an open dialog
/// takes the key; while typing the filter the key edits it; otherwise it is a table command.
pub open spec fn key_step(a: AppV, key: Key, page: int, now: u64) -> (AppV, ActionV) {
    if key.ctrl && key.code == KeyCode::Char('c') {
        (AppV { should_quit: true, ..a }, ActionV::Nothing)
    } else if a.popup is Some {
        popup_step(AppV { popup: None, ..a }, a.popup->0, key)
    } else if a.editing_filter {
        (filter_step(a, key), ActionV::Nothing)
    } else {
        main_step(a, key, page, now)
    }
}

/// Rows per page for the recorded table body.
pub open spec fn page_of(areas: Areas) -> int {
    if areas.table_body.height > 1 {
        areas.table_body.height as int
    } else {
        1
    }
}

impl App {
    fn edit_filter(&mut self, key: Key)
        requires
            old(self).wf(),
        ensures
            final(self)@ == filter_step(old(self)@, key),
            final(self).wf(),
            final(self).areas == old(self).areas,
            final(self).interval == old(self).interval,
    {
        match key.code {
            KeyCode::Enter => {
                self.editing_filter = false;
            },
            KeyCode::Esc => {
                let mut st = self.take_cur();
                st.filter = String::new();
                self.put_cur(st);
                self.editing_filter = false;
            },
            KeyCode::Backspace => {
                let mut st = self.take_cur();
                pop_char(&mut st.filter);
                self.put_cur(st);
            },
            KeyCode::Char(c) => {
                let mut st = self.take_cur();
                push_char(&mut st.filter, c);
                self.put_cur(st);
            },
            _ => {},
        }
    }

    fn handle_popup_key(&mut self, popup: Popup, key: Key) -> (action: Action)
        requires
            old(self).wf(),
            old(self)@.popup is None,
        ensures
            (final(self)@, action@) == popup_step(old(self)@, popup@, key),
            final(self).wf(),
            final(self).areas == old(self).areas,
            final(self).interval == old(self).interval,
    {
        match popup {
            Popup::ConfirmKill { label, pids } => match key.code {
                KeyCode::Char('y') | KeyCode::Char('Y') | KeyCode::Enter => Action::EndProcesses { label, pids },
                KeyCode::Char('n') | KeyCode::Char('N') | KeyCode::Char('q') | KeyCode::Esc => Action::Nothing,
                _ => {
                    self.popup = Some(Popup::ConfirmKill { label, pids });
                    Action::Nothing
                },
            },
            Popup::Help => Action::Nothing,
        }
    }

    fn flip_direction(&mut self)
        requires
            old(self).wf(),
        ensures
            final(self)@ == old(self)@.with_cur(TabV { desc: !old(self)@.cur().desc, ..old(self)@.cur() }),
            final(self).wf(),
            final(self).areas == old(self).areas,
            final(self).interval == old(self).interval,
    {
        let mut st = self.take_cur();
        st.desc = !st.desc;
        self.put_cur(st);
    }

    fn clear_filter(&mut self)
        requires
            old(self).wf(),
        ensures
            final(self)@ == with_filter(old(self)@, Seq::empty()),
            final(self).wf(),
            final(self).areas == old(self).areas,
            final(self).interval == old(self).interval,
    {
        let mut st = self.take_cur();
        st.filter = String::new();
        self.put_cur(st);
    }

    /// Reacts to a key pressed at time `now_ms`; the result says what the front end has to
    /// carry out.
    pub fn handle_key(&mut self, key: Key, now_ms: u64) -> (action: Action)
        requires
            old(self).wf(),
        ensures
            (final(self)@, action@) == key_step(old(self)@, key, page_of(old(self).areas), now_ms),
            final(self).wf(),
            final(self).areas == old(self).areas,
            final(self).interval == old(self).interval,
    {
        if key.ctrl && key.code == KeyCode::Char('c') {
            self.should_quit = true;
            return Action::Nothing;
        }
        if let Some(popup) = self.popup.take() {
            return self.handle_popup_key(popup, key);
        }
        if self.editing_filter {
            self.edit_filter(key);
            return Action::Nothing;
        }
        self.table_key(key, now_ms)
    }

    fn quit(&mut self)
        requires
            old(self).wf(),
        ensures
            final(self)@ == (AppV { should_quit: true, ..old(self)@ }),
            final(self).wf(),
            final(self).areas == old(self).areas,
            final(self).interval == old(self).interval,
    {
        self.should_quit = true;
    }

    fn open_help(&mut self)
        requires
            old(self).wf(),
        ensures
            final(self)@ == (AppV { popup: Some(PopupV::Help), ..old(self)@ }),
            final(self).wf(),
            final(self).areas == old(self).areas,
            final(self).interval == old(self).interval,
    {
        self.popup = Some(Popup::Help);
    }

    fn start_filter(&mut self)
        requires
            old(self).wf(),
        ensures
            final(self)@ == (AppV { editing_filter: true, ..old(self)@ }),
            final(self).wf(),
            final(self).areas == old(self).areas,
            final(self).interval == old(self).interval,
    {
        self.editing_filter = true;
    }

    fn char_key(&mut self, c: char, now_ms: u64) -> (action: Action)
        requires
            old(self).wf(),
        ensures
            (final(self)@, action@) == main_step(old(self)@, Key { code: KeyCode::Char(c), ctrl: false }, 1, now_ms),
            final(self).wf(),
            final(self).areas == old(self).areas,
            final(self).interval == old(self).interval,
    {
        let tab = self.tab;
        if c == 'q' {
            self.quit();
            Action::Nothing
        } else if c == '?' {
            self.open_help();
            Action::Nothing
        } else if '1' <= c && c <= '7' {
            let i = (c as u32 - '1' as u32) as usize;
            self.set_tab(Tab::from_index(i));
            Action::Nothing
        } else if (c == '/' || c == 'f') && tab != Tab::Performance {
            self.start_filter();
            Action::Nothing
        } else if c == 'j' {
            self.move_selection(1);
            Action::Nothing
        } else if c == 'k' {
            self.move_selection(-1);
            Action::Nothing
        } else if c == 'g' {
            self.select_first();
            Action::Nothing
        } else if c == 'G' {
            self.select_last();
            Action::Nothing
        } else if c == ' ' {
            self.toggle_selected(None);
            Action::Nothing
        } else if c == 'l' {
            self.toggle_selected(Some(true));
            Action::Nothing
        } else if c == 'h' {
            self.toggle_selected(Some(false));
            Action::Nothing
        } else if c == 's' {
            self.cycle_sort();
            Action::Nothing
        } else if c == 'S' {
            self.flip_direction();
            Action::Nothing
        } else if c == 'x' {
            self.request_kill(now_ms);
            Action::Nothing
        } else if c == 'r' && tab == Tab::AppHistory {
            Action::ResetAppHistory
        } else if c == 'r' && (tab == Tab::Services || tab == Tab::Startup) {
            Action::ReloadLists
        } else {
            Action::Nothing
        }
    }

    fn table_key(&mut self, key: Key, now_ms: u64) -> (action: Action)
        requires
            old(self).wf(),
        ensures
            (final(self)@, action@) == main_step(old(self)@, key, page_of(old(self).areas), now_ms),
            final(self).wf(),
            final(self).areas == old(self).areas,
            final(self).interval == old(self).interval,
    {
        match key.code {
            KeyCode::Char(c) => self.char_key(c, now_ms),
            KeyCode::F(n) => {
                if n == 1 {
                    self.open_help();
                }
                Action::Nothing
            },
            KeyCode::Esc => {
                self.clear_filter();
                Action::Nothing
            },
            KeyCode::Tab => {
                self.cycle_tab(1);
                Action::Nothing
            },
            KeyCode::BackTab => {
                self.cycle_tab(-1);
                Action::Nothing
            },
            KeyCode::Down => {
                self.move_selection(1);
                Action::Nothing
            },
            KeyCode::Up => {
                self.move_selection(-1);
                Action::Nothing
            },
            KeyCode::PageDown => {
                let page = self.page_size();
                self.move_selection(page);
                Action::Nothing
            },
            KeyCode::PageUp => {
                let page = self.page_size();
                self.move_selection(-page);
                Action::Nothing
            },
            KeyCode::Home => {
                self.select_first();
                Action::Nothing
            },
            KeyCode::End => {
                self.select_last();
                Action::Nothing
            },
            KeyCode::Enter => {
                self.toggle_selected(None);
                Action::Nothing
            },
            KeyCode::Right => {
                self.toggle_selected(Some(true));
                Action::Nothing
            },
            KeyCode::Left => {
                self.toggle_selected(Some(false));
                Action::Nothing
            },
            KeyCode::Delete => {
                self.request_kill(now_ms);
                Action::Nothing
            },
            _ => Action::Nothing,
        }
    }
}

/// The tab whose label was clicked, the first whose rectangle holds the cell.
pub open spec fn first_tab_hit(tabs: Seq<(Rect, Tab)>, column: u16, row: u16) -> Option<Tab>
    decreases tabs.len(),
{
    if tabs.len() == 0 {
        None
    } else {
        match first_tab_hit(tabs.drop_last(), column, row) {
            Some(t) => Some(t),
            None => if tabs.last().0.spec_contains(column, row) {
                Some(tabs.last().1)
            } else {
                None
            },
        }
    }
}

/// The header column that spans screen column `column`, the first one if several do.
pub open spec fn first_column_hit(cols: Seq<Rect>, column: u16) -> Option<int>
    decreases cols.len(),
{
    if cols.len() == 0 {
        None
    } else {
        match first_column_hit(cols.drop_last(), column) {
            Some(i) => Some(i),
            None => if column >= cols.last().x && column < cols.last().x + cols.last().width {
                Some(cols.len() - 1)
            } else {
                None
            },
        }
    }
}

/// A click on the header sorts by the clicked column, if it is sortable.
#[verifier::opaque]
pub open spec fn header_click(a: AppV, areas: Areas, column: u16) -> AppV {
    let cols = spec_build(a, a.tab).columns;
    match first_column_hit(areas.header_columns@, column) {
        Some(i) => if i < cols.len() {
            match cols[i].sort {
                Some(k) => a.with_cur(sorted_by(a.cur(), k)),
                None => a,
            }
        } else {
            a
        },
        None => a,
    }
}

/// A click on a row selects it; a click on the selected row expands or collapses it, like a
/// double click.
#[verifier::opaque]
pub open spec fn body_click(a: AppV, areas: Areas, row: u16) -> AppV {
    let rows = cur_rows(a);
    let a1 = resynced(a);
    let idx = a1.cur().table.offset + (row - areas.table_body.y);
    if idx >= rows.len() {
        a1
    } else if a1.cur().table.selected == Some(idx as usize) {
        toggled(a1, rows[idx], None)
    } else {
        a1.with_cur(selected_at(a1.cur(), rows, idx as usize))
    }
}

/// How the state reacts to a mouse event, given the regions of the last draw. Nothing
/// happens while a dialog is open.
pub open spec fn mouse_step(a: AppV, areas: Areas, m: Mouse) -> AppV {
    if a.popup is Some {
        a
    } else {
        match m.kind {
            MouseKind::ScrollDown => moved(a, 3isize),
            MouseKind::ScrollUp => moved(a, -3isize),
            MouseKind::LeftDown => match first_tab_hit(areas.tabs@, m.column, m.row) {
                Some(t) => spec_set_tab(a, t),
                None => if areas.table_header.spec_contains(m.column, m.row) {
                    header_click(a, areas, m.column)
                } else if areas.table_body.spec_contains(m.column, m.row) {
                    body_click(a, areas, m.row)
                } else {
                    a
                },
            },
            MouseKind::Other => a,
        }
    }
}

proof fn lemma_first_tab_hit(tabs: Seq<(Rect, Tab)>, column: u16, row: u16)
    ensures
        first_tab_hit(tabs, column, row) matches Some(t) ==> exists|i: int|
            0 <= i < tabs.len() && tabs[i].0.spec_contains(column, row) && tabs[i].1 == t && forall|j: int|
                0 <= j < i ==> !tabs[j].0.spec_contains(column, row),
        first_tab_hit(tabs, column, row) is None ==> forall|j: int| 0 <= j < tabs.len() ==> !tabs[j].0.spec_contains(column, row),
    decreases tabs.len(),
{
    if tabs.len() > 0 {
        let init = tabs.drop_last();
        lemma_first_tab_hit(init, column, row);
        assert forall|j: int| 0 <= j < init.len() implies init[j] == tabs[j] by {}
        if first_tab_hit(init, column, row) is Some {
            let i = choose|i: int| 0 <= i < init.len() && init[i].0.spec_contains(column, row) && init[i].1 == first_tab_hit(init, column, row)->0 && forall|j: int|
                0 <= j < i ==> !init[j].0.spec_contains(column, row);
            assert(tabs[i] == init[i]);
        } else if tabs.last().0.spec_contains(column, row) {
            assert(tabs[tabs.len() - 1] == tabs.last());
        }
    }
}

fn tab_hit(tabs: &Vec<(Rect, Tab)>, column: u16, row: u16) -> (r: Option<Tab>)
    ensures
        r == first_tab_hit(tabs@, column, row),
{
    let mut i: usize = 0;
    while i < tabs.len()
        invariant
            i <= tabs.len(),
            first_tab_hit(tabs@.take(i as int), column, row) is None,
        decreases tabs.len() - i,
    {
        proof {
            assert(tabs@.take(i + 1).drop_last() =~= tabs@.take(i as int));
        }
        let (r, t) = tabs[i];
        if r.contains(column, row) {
            proof {
                lemma_first_tab_hit_prefix(tabs@, column, row, i + 1);
            }
            return Some(t);
        }
        i = i + 1;
    }
    proof {
        assert(tabs@.take(i as int) =~= tabs@);
    }
    None
}

proof fn lemma_first_tab_hit_prefix(tabs: Seq<(Rect, Tab)>, column: u16, row: u16, k: int)
    requires
        0 < k <= tabs.len(),
        first_tab_hit(tabs.take(k), column, row) is Some,
    ensures
        first_tab_hit(tabs, column, row) == first_tab_hit(tabs.take(k), column, row),
    decreases tabs.len(),
{
    if k < tabs.len() {
        assert(tabs.drop_last().take(k) =~= tabs.take(k));
        lemma_first_tab_hit_prefix(tabs.drop_last(), column, row, k);
    } else {
        assert(tabs.take(k) =~= tabs);
    }
}

proof fn lemma_first_column_hit_prefix(cols: Seq<Rect>, column: u16, k: int)
    requires
        0 < k <= cols.len(),
        first_column_hit(cols.take(k), column) is Some,
    ensures
        first_column_hit(cols, column) == first_column_hit(cols.take(k), column),
    decreases cols.len(),
{
    if k < cols.len() {
        assert(cols.drop_last().take(k) =~= cols.take(k));
        lemma_first_column_hit_prefix(cols.drop_last(), column, k);
    } else {
        assert(cols.take(k) =~= cols);
    }
}

fn column_hit(cols: &Vec<Rect>, column: u16) -> (r: Option<usize>)
    ensures
        r matches Some(i) ==> first_column_hit(cols@, column) == Some(i as int),
        r is None ==> first_column_hit(cols@, column) is None,
{
    let mut i: usize = 0;
    while i < cols.len()
        invariant
            i <= cols.len(),
            first_column_hit(cols@.take(i as int), column) is None,
        decreases cols.len() - i,
    {
        proof {
            assert(cols@.take(i + 1).drop_last() =~= cols@.take(i as int));
        }
        let r = cols[i];
        if column >= r.x && (column as u32) < r.x as u32 + r.width as u32 {
            proof {
                assert(first_column_hit(cols@.take(i + 1), column) == Some(i as int));
                lemma_first_column_hit_prefix(cols@, column, i + 1);
            }
            return Some(i);
        }
        i = i + 1;
    }
    proof {
        assert(cols@.take(i as int) =~= cols@);
    }
    None
}

impl App {
    fn click_header(&mut self, column: u16)
        requires
            old(self).wf(),
        ensures
            final(self)@ == header_click(old(self)@, old(self).areas, column),
            final(self).wf(),
            final(self).areas == old(self).areas,
            final(self).interval == old(self).interval,
    {
        proof {
            reveal(header_click);
        }
        let view = build(self, self.tab);
        match column_hit(&self.areas.header_columns, column) {
            Some(i) => {
                if i < view.columns.len() {
                    match view.columns[i].sort {
                        Some(k) => self.sort_by(k),
                        None => {},
                    }
                }
            },
            None => {},
        }
    }

    fn click_body(&mut self, row: u16)
        requires
            old(self).wf(),
            row >= old(self).areas.table_body.y,
        ensures
            final(self)@ == body_click(old(self)@, old(self).areas, row),
            final(self).wf(),
            final(self).areas == old(self).areas,
            final(self).interval == old(self).interval,
    {
        proof {
            reveal(body_click);
        }
        let view = self.synced_view();
        proof {
            lemma_with_cur_twice(old(self)@, synced(old(self)@.cur(), view@.rows), synced(old(self)@.cur(), view@.rows));
        }
        let offset = self.tab_state(self.tab).table.offset;
        let step = (row - self.areas.table_body.y) as usize;
        if offset >= view.rows.len() || step >= view.rows.len() - offset {
            return;
        }
        let idx = offset + step;
        if self.selected_index() == Some(idx) {
            self.toggle_row(&view.rows[idx], None);
        } else {
            self.select_index(&view, idx);
            proof {
                let t = synced(old(self)@.cur(), view@.rows);
                lemma_with_cur_twice(old(self)@, t, selected_at(t, view@.rows, idx));
            }
        }
    }

    /// Reacts to a mouse event: scrolling moves the selection, a click selects a tab, sorts by
    /// a header column, or selects (or toggles) a row.
    pub fn handle_mouse(&mut self, mouse: Mouse)
        requires
            old(self).wf(),
        ensures
            final(self)@ == mouse_step(old(self)@, old(self).areas, mouse),
            final(self).wf(),
            final(self).areas == old(self).areas,
            final(self).interval == old(self).interval,
    {
        if self.popup.is_some() {
            return;
        }
        match mouse.kind {
            MouseKind::ScrollDown => self.move_selection(3),
            MouseKind::ScrollUp => self.move_selection(-3),
            MouseKind::LeftDown => {
                match tab_hit(&self.areas.tabs, mouse.column, mouse.row) {
                    Some(tab) => self.set_tab(tab),
                    None => {
                        if self.areas.table_header.contains(mouse.column, mouse.row) {
                            self.click_header(mouse.column);
                        } else if self.areas.table_body.contains(mouse.column, mouse.row) {
                            self.click_body(mouse.row);
                        }
                    },
                }
            },
            MouseKind::Other => {},
        }
    }

    /// Reacts to an input event at time `now_ms`.
    pub fn handle_event(&mut self, event: Event, now_ms: u64) -> (action: Action)
        requires
            old(self).wf(),
        ensures
            match event {
                Event::Key(key) => (final(self)@, action@) == key_step(old(self)@, key, page_of(old(self).areas), now_ms),
                Event::Mouse(m) => final(self)@ == mouse_step(old(self)@, old(self).areas, m) && action@ == ActionV::Nothing,
                Event::Other => final(self)@ == old(self)@ && action@ == ActionV::Nothing,
            },
            final(self).wf(),
            final(self).areas == old(self).areas,
            final(self).interval == old(self).interval,
    {
        match event {
            Event::Key(key) => self.handle_key(key, now_ms),
            Event::Mouse(m) => {
                self.handle_mouse(m);
                Action::Nothing
            },
            Event::Other => Action::Nothing,
        }
    }
}

} // verus!
