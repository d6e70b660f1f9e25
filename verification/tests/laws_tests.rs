use otm::app::{Action, App, Event, Key, KeyCode, Mouse, MouseKind};
use otm::screen::tab_bar;
use otm::grouped::{processes, users};
use otm::html::{to_html, StyledCell, Tint};
use otm::cli::{parse_args, Command};
use otm::history::push_capped;
use otm::model::{ProcessInfo, CPU_UNITS_PER_PERCENT};
use otm::order::stable_order;
use otm::tabs::{SortKey, Tab};
use otm::text::escape;
use otm::views::filter_exec;
use std::collections::VecDeque;
use std::time::Duration;

fn process(pid: u32, name: &str, cpu: f32) -> ProcessInfo {
    ProcessInfo {
        pid,
        name: name.to_string(),
        cpu_units: (cpu as f64 * CPU_UNITS_PER_PERCENT as f64) as u64,
        memory: 1 << 20,
        disk_bytes_per_sec: 0,
        status: "Running".to_string(),
        user_name: None,
    }
}

fn app_with(processes: Vec<ProcessInfo>) -> App {
    App::new(Duration::from_millis(1500), processes, Vec::new(), 1 << 34, Vec::new(), Vec::new())
}

fn press(app: &mut App, code: KeyCode) {
    app.handle_event(Event::Key(Key { code, ctrl: false }), 0);
}

fn selected_key(app: &App) -> Option<String> {
    app.tab_state(app.tab).selected_key.clone()
}

#[test]
fn sorting_by_the_same_column_twice_flips_back() {
    let mut app = app_with(vec![process(1, "a", 0.0)]);
    app.set_tab(Tab::Details);
    assert_eq!(app.sort_for(Tab::Details), (SortKey::Cpu, true));
    app.sort_by(SortKey::Cpu);
    assert_eq!(app.sort_for(Tab::Details), (SortKey::Cpu, false));
    app.sort_by(SortKey::Cpu);
    assert_eq!(app.sort_for(Tab::Details), (SortKey::Cpu, true));
    // A new column starts in its natural direction.
    app.sort_by(SortKey::Name);
    assert_eq!(app.sort_for(Tab::Details), (SortKey::Name, false));
    app.sort_by(SortKey::Memory);
    assert_eq!(app.sort_for(Tab::Details), (SortKey::Memory, true));
}

#[test]
fn tab_forward_then_back_returns() {
    let mut app = app_with(Vec::new());
    for start in ['1', '4', '7'] {
        press(&mut app, KeyCode::Char(start));
        let tab = app.tab;
        press(&mut app, KeyCode::Tab);
        assert_ne!(app.tab, tab);
        press(&mut app, KeyCode::BackTab);
        assert_eq!(app.tab, tab);
    }
    press(&mut app, KeyCode::Char('7'));
    press(&mut app, KeyCode::Tab);
    assert_eq!(app.tab, Tab::Processes);
}

#[test]
fn toggling_a_group_twice_restores_it() {
    let mut app = app_with(vec![process(10, "Firefox", 0.5), process(11, "Firefox", 0.4), process(12, "Code", 0.01)]);
    press(&mut app, KeyCode::Down); // from the "Apps" section to the Firefox group
    assert_eq!(selected_key(&app), Some("grp:Firefox".to_string()));
    press(&mut app, KeyCode::Enter);
    assert_eq!(app.expanded, vec!["grp:Firefox".to_string()]);
    press(&mut app, KeyCode::Enter);
    assert!(app.expanded.is_empty());
    press(&mut app, KeyCode::Right);
    press(&mut app, KeyCode::Right);
    assert_eq!(app.expanded, vec!["grp:Firefox".to_string()]);
}

#[test]
fn ending_processes_keeps_the_others_in_order() {
    let mut app = app_with(vec![process(1, "a", 0.0), process(2, "b", 0.0), process(3, "c", 0.0), process(4, "d", 0.0)]);
    app.confirm_kill("b", &vec![2, 4], &vec![true, true], 0);
    let pids: Vec<u32> = app.processes().iter().map(|p| p.pid).collect();
    assert_eq!(pids, vec![1, 3]);
}

#[test]
fn parsed_interval_is_never_below_the_minimum() {
    for value in ["0", "1", "249", "250", "251"] {
        match parse_args(&vec!["-i".to_string(), value.to_string()]) {
            Ok(Command::Run(ms)) => assert!(ms >= 250),
            other => panic!("{other:?}"),
        }
    }
}

#[test]
fn history_keeps_the_newest_last() {
    let mut buf: VecDeque<u64> = (0..60).collect();
    push_capped(&mut buf, 99);
    assert_eq!(buf.len(), 60);
    assert_eq!(buf.back(), Some(&99));
    assert_eq!(buf.front(), Some(&1));
}

#[test]
fn selection_follows_the_item_when_rows_move() {
    let mut app = app_with(vec![process(1, "a", 0.1), process(2, "b", 0.3), process(3, "c", 0.2)]);
    app.set_tab(Tab::Details);
    // By CPU, highest first: b, c, a. One step down selects c.
    press(&mut app, KeyCode::Down);
    assert_eq!(selected_key(&app), Some("pid:3".to_string()));
    assert_eq!(app.selected_index(), Some(1));
    // Sorted by name (a, b, c), c moves to the last row and stays selected.
    app.sort_by(SortKey::Name);
    let view = app.synced_view();
    assert_eq!(app.selected_index(), Some(2));
    assert_eq!(view.rows[2].key, "pid:3");
    // Doing it again changes nothing.
    app.synced_view();
    assert_eq!(app.selected_index(), Some(2));
    assert_eq!(selected_key(&app), Some("pid:3".to_string()));
}

#[test]
fn moving_stays_on_the_rows() {
    let mut app = app_with(vec![process(1, "a", 0.003), process(2, "b", 0.002)]);
    app.set_tab(Tab::Details);
    for _ in 0..5 {
        press(&mut app, KeyCode::Down);
    }
    assert_eq!(app.selected_index(), Some(1));
    press(&mut app, KeyCode::PageUp);
    assert_eq!(app.selected_index(), Some(0));
    press(&mut app, KeyCode::End);
    assert_eq!(app.selected_index(), Some(1));
}

#[test]
fn filtering_is_case_insensitive_and_ordered() {
    let texts = vec!["Firefox".to_string(), "code".to_string(), "FIREWALL".to_string()];
    assert_eq!(filter_exec(&texts, "fire"), vec![0, 2]);
    assert_eq!(filter_exec(&texts, "ODE"), vec![1]);
    assert_eq!(filter_exec(&texts, ""), vec![0, 1, 2]);
    assert_eq!(filter_exec(&texts, "zz"), Vec::<usize>::new());
}

#[test]
fn plain_text_is_not_escaped() {
    assert_eq!(escape("plain text, 100% fine"), "plain text, 100% fine");
}

#[test]
fn equal_keys_keep_their_order() {
    let keys = vec![vec![2], vec![1], vec![2], vec![1]];
    assert_eq!(stable_order(&keys, false), vec![1, 3, 0, 2]);
    assert_eq!(stable_order(&keys, true), vec![0, 2, 1, 3]);
}

#[test]
fn ending_processes_always_asks_first() {
    let mut app = app_with(vec![process(1, "a", 0.003), process(2, "b", 0.002)]);
    app.set_tab(Tab::Details);
    let keys = [
        KeyCode::Char('x'),
        KeyCode::Delete,
        KeyCode::Enter,
        KeyCode::Char('y'),
        KeyCode::Char('r'),
        KeyCode::Down,
    ];
    for code in keys {
        let mut fresh = app_with(vec![process(1, "a", 0.003), process(2, "b", 0.002)]);
        fresh.set_tab(Tab::Details);
        let action = fresh.handle_event(Event::Key(Key { code, ctrl: false }), 0);
        assert!(!matches!(action, Action::EndProcesses { .. }), "{code:?}");
    }
    app.handle_event(Event::Key(Key { code: KeyCode::Char('x'), ctrl: false }), 0);
    let action = app.handle_event(Event::Key(Key { code: KeyCode::Enter, ctrl: false }), 0);
    assert!(matches!(action, Action::EndProcesses { ref pids, .. } if pids == &vec![1]));
}

#[test]
fn clicks_on_a_tab_entry_select_it() {
    let (areas, _) = tab_bar(0, 0);
    for (rect, tab) in areas.clone() {
        for column in [rect.x, rect.x + rect.width - 1] {
            let mut app = app_with(Vec::new());
            app.areas.tabs = areas.clone();
            app.handle_event(Event::Mouse(Mouse { kind: MouseKind::LeftDown, column, row: 0 }), 0);
            assert_eq!(app.tab, tab);
        }
    }
}

#[test]
fn reversing_twice_restores_the_order() {
    let mut app = app_with(vec![process(1, "a", 0.003)]);
    let before = app.sort_for(Tab::Processes);
    press(&mut app, KeyCode::Char('S'));
    assert_eq!(app.sort_for(Tab::Processes), (before.0, !before.1));
    press(&mut app, KeyCode::Char('S'));
    assert_eq!(app.sort_for(Tab::Processes), before);
}

#[test]
fn backspace_undoes_a_typed_character() {
    let mut app = app_with(vec![process(1, "a", 0.003)]);
    press(&mut app, KeyCode::Char('/'));
    press(&mut app, KeyCode::Char('a'));
    press(&mut app, KeyCode::Char('é'));
    press(&mut app, KeyCode::Backspace);
    assert_eq!(app.tab_state(Tab::Processes).filter, "a");
    assert!(app.editing_filter);
}

#[test]
fn details_lists_each_match_once_in_order() {
    let ps = vec![process(5, "Firefox", 0.1), process(3, "code", 0.3), process(4, "firewall", 0.3), process(9, "x", 0.9)];
    let v = otm::views::details(&ps, "FIRE", SortKey::Cpu, true, 1 << 34);
    let keys: Vec<String> = v.rows.iter().map(|r| r.key.clone()).collect();
    // firewall (0.3%) before Firefox (0.1%); code and x do not match.
    assert_eq!(keys, vec!["pid:4", "pid:5"]);
    let all = otm::views::details(&ps, "", SortKey::Cpu, false, 1 << 34);
    let keys: Vec<String> = all.rows.iter().map(|r| r.key.clone()).collect();
    // Equal CPU (code, firewall) keep their given order.
    assert_eq!(keys, vec!["pid:5", "pid:3", "pid:4", "pid:9"]);
}

#[test]
fn grouping_puts_each_process_in_one_group() {
    let mut ps = vec![process(7, "Code", 0.001), process(3, "Firefox", 0.002), process(5, "Code", 0.003), process(1, "zsh", 0.004)];
    ps[1].user_name = Some("alex".to_string());
    let idx: Vec<usize> = vec![0, 1, 2, 3];
    let groups = otm::groups::group_by(&ps, &idx, otm::groups::GroupBy::Name);
    let names: Vec<String> = groups.iter().map(|g| g.name.clone()).collect();
    assert_eq!(names, vec!["Code", "Firefox", "zsh"]);
    // Members by ascending PID, each process in exactly one group.
    assert_eq!(groups[0].instances, vec![2, 0]);
    let mut all: Vec<usize> = groups.iter().flat_map(|g| g.instances.clone()).collect();
    all.sort();
    assert_eq!(all, idx);
    assert_eq!(groups[0].cpu, ps[0].cpu_units + ps[2].cpu_units);
    assert_eq!(groups[0].min_pid, 5);
    let by_user = otm::groups::group_by(&ps, &idx, otm::groups::GroupBy::User);
    let users: Vec<String> = by_user.iter().map(|g| g.name.clone()).collect();
    assert_eq!(users, vec!["Unknown", "alex"]);
    assert_eq!(by_user[0].instances, vec![3, 2, 0]);
}

#[test]
fn escaping_wraps_each_braille_character_once() {
    let out = escape("a\u{2801}<b\u{28ff}\u{2801}");
    assert_eq!(out.matches("<i>").count(), 3);
    assert_eq!(escape("no graphs <here>").matches("<i>").count(), 0);
}

#[test]
fn html_screens_have_one_line_per_row() {
    let cell = |s: &str, fg: Tint| StyledCell { symbol: s.to_string(), fg, bg: Tint::Other, bold: false, underlined: false };
    let rows = vec![vec![cell("a", Tint::Red), cell(" ", Tint::Other)], vec![], vec![cell("x", Tint::Other)]];
    let out = to_html(&rows, "s", "l", false);
    assert!(out.starts_with("<pre class=\"term-screen\" data-screen=\"s\" role=\"img\" aria-label=\"l\">"));
    assert!(out.ends_with("</pre>"));
    assert_eq!(out.matches('\n').count(), 3);
}

#[test]
fn sections_appear_only_with_processes() {
    let ps = vec![process(1, "Firefox", 1.0), process(2, "Firefox", 2.0), process(3, "Code", 0.5)];
    let v = processes(&ps, "", SortKey::Cpu, true, &Vec::new(), &Vec::new(), 1 << 34);
    let keys: Vec<String> = v.rows.iter().map(|r| r.key.clone()).collect();
    assert_eq!(keys, vec!["sec:apps", "grp:Firefox", "pid:3"]);
    assert_eq!(v.title, "Processes · 3");
    let collapsed = processes(&ps, "", SortKey::Cpu, true, &Vec::new(), &vec!["sec:apps".to_string()], 1 << 34);
    assert_eq!(collapsed.rows.len(), 1);
    assert!(collapsed.rows[0].pids.is_empty());
}

#[test]
fn users_tab_has_one_row_per_user() {
    let mut ps = vec![process(1, "a", 1.0), process(2, "b", 1.0), process(3, "c", 1.0), process(4, "d", 1.0)];
    ps[0].user_name = Some("zoe".to_string());
    ps[2].user_name = Some("zoe".to_string());
    ps[3].user_name = Some("amy".to_string());
    let v = users(&ps, "", SortKey::Name, false, &Vec::new(), 1 << 34);
    let keys: Vec<String> = v.rows.iter().map(|r| r.key.clone()).collect();
    // By name, ignoring case: amy, Unknown, zoe.
    assert_eq!(keys, vec!["user:amy", "user:Unknown", "user:zoe"]);
    assert_eq!(v.title, "Users · 3");
    assert!(v.rows.iter().all(|r| r.pids.is_empty()));
}
