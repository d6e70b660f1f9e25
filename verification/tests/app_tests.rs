use otm::app::{build, Action, App, Event, Key, KeyCode, Mouse, MouseKind, Popup};
use otm::model::{CPU_UNITS_PER_PERCENT, AppHistoryEntry, ProcessInfo, ServiceInfo, StartupAppInfo};
use otm::screen::{header_title, tab_bar};
use otm::tabs::{SortKey, Tab};
use std::time::Duration;

const MB: u64 = 1024 * 1024;
const GB: u64 = 1024 * 1024 * 1024;

fn process(pid: u32, name: &str, cpu: f32, mem_mb: u64, user: &str) -> ProcessInfo {
    ProcessInfo {
        pid,
        name: name.to_string(),
        cpu_units: (cpu as f64 * CPU_UNITS_PER_PERCENT as f64) as u64,
        memory: mem_mb * MB,
        disk_bytes_per_sec: 0,
        status: "Sleeping".to_string(),
        user_name: Some(user.to_string()),
    }
}

fn sample_app() -> App {
    let processes = vec![
        process(1, "Systemd", 0.0, 14, "root"),
        process(2210, "Firefox", 9.8, 612, "alex"),
        process(2264, "Firefox", 6.1, 388, "alex"),
        process(3105, "Code", 4.9, 540, "alex"),
        process(6010, "otm", 0.3, 9, "alex"),
        process(911, "Dbus Daemon", 0.1, 6, "messagebus"),
    ];
    let history = vec![
        AppHistoryEntry { name: "Firefox".to_string(), cpu_millis: 2_941_000 },
        AppHistoryEntry { name: "Code".to_string(), cpu_millis: 1_720_000 },
    ];
    let services = vec![ServiceInfo {
        name: "sshd".to_string(),
        description: "OpenSSH server".to_string(),
        status: "Running".to_string(),
    }];
    let startup = vec![StartupAppInfo { name: "Discord".to_string(), publisher: "Discord Inc.".to_string(), enabled: true }];
    App::new(Duration::from_millis(1500), processes, history, 32 * GB, services, startup)
}

fn press(app: &mut App, code: KeyCode) -> Action {
    app.handle_event(Event::Key(Key { code, ctrl: false }), 0)
}

fn column_titles(app: &App, tab: Tab) -> Vec<String> {
    build(app, tab).columns.iter().map(|c| c.title.clone()).collect()
}

#[test]
fn starts_on_processes_with_default_sorts() {
    let app = sample_app();
    assert_eq!(app.tab, Tab::Processes);
    assert_eq!(app.sort_for(Tab::Processes), (SortKey::Cpu, true));
    assert_eq!(app.sort_for(Tab::Services), (SortKey::Name, false));
    assert!(app.popup.is_none());
    assert!(!app.should_quit);
}

#[test]
fn renders_every_tab() {
    let mut app = sample_app();
    let expected = [
        (Tab::Processes, "PID"),
        (Tab::Performance, ""),
        (Tab::AppHistory, "CPU time"),
        (Tab::Startup, "Publisher"),
        (Tab::Users, "User"),
        (Tab::Details, "User name"),
        (Tab::Services, "Description"),
    ];
    for (i, (tab, column)) in expected.into_iter().enumerate() {
        press(&mut app, KeyCode::Char(char::from(b'1' + i as u8)));
        assert_eq!(app.tab, tab);
        let titles = column_titles(&app, tab);
        if tab == Tab::Performance {
            assert!(titles.is_empty());
        } else {
            assert!(titles.iter().any(|t| t == column), "{tab:?} lacks {column:?}: {titles:?}");
        }
    }
    let processes = build(&app, Tab::Processes);
    assert_eq!(processes.rows[0].key, "sec:apps");
    assert!(processes.rows[0].cells[0].text.contains("Apps"));
}

#[test]
fn filter_sort_and_kill_prompt() {
    let mut app = sample_app();
    press(&mut app, KeyCode::Char('6')); // Details: one row per process
    press(&mut app, KeyCode::Char('/'));
    assert!(app.editing_filter);
    for c in "otm".chars() {
        press(&mut app, KeyCode::Char(c));
    }
    press(&mut app, KeyCode::Enter);
    assert!(!app.editing_filter);
    assert_eq!(app.tab_state(Tab::Details).filter, "otm");
    let view = app.synced_view();
    assert_eq!(view.rows.len(), 1);
    assert_eq!(view.rows[0].label, "otm (PID 6010)");

    press(&mut app, KeyCode::Char('x'));
    match &app.popup {
        Some(Popup::ConfirmKill { label, pids }) => {
            assert_eq!(label, "otm (PID 6010)");
            assert_eq!(pids, &vec![6010]);
        },
        _ => panic!("no confirmation"),
    }
    assert!(matches!(press(&mut app, KeyCode::Char('n')), Action::Nothing));
    assert!(app.popup.is_none());

    press(&mut app, KeyCode::Char('s'));
    let (sort, desc) = app.sort_for(Tab::Details);
    assert_eq!(sort, SortKey::Memory);
    let view = app.synced_view();
    let headers: Vec<String> = view.columns.iter().map(|c| header_title(&c.title, c.sort, sort, desc)).collect();
    assert!(headers.iter().any(|h| h.contains('▲') || h.contains('▼')), "{headers:?}");
}

#[test]
fn confirming_ends_and_reports() {
    let mut app = sample_app();
    press(&mut app, KeyCode::Char('6'));
    press(&mut app, KeyCode::Char('x'));
    let action = press(&mut app, KeyCode::Char('y'));
    let (label, pids) = match action {
        Action::EndProcesses { label, pids } => (label, pids),
        _ => panic!("expected end processes"),
    };
    // The Details tab sorts by CPU, highest first: Firefox 2210 is on top.
    assert_eq!(label, "Firefox (PID 2210)");
    assert_eq!(pids, vec![2210]);
    app.confirm_kill(&label, &pids, &vec![true], 1000);
    assert_eq!(app.status(1000), Some("Ended Firefox (PID 2210)"));
    assert!(app.processes().iter().all(|p| p.pid != 2210));
    assert_eq!(app.processes().len(), 5);
}

#[test]
fn partial_kill_message() {
    let mut app = sample_app();
    app.confirm_kill("Firefox", &vec![2210, 2264], &vec![true, false], 0);
    assert_eq!(
        app.status(0),
        Some("Ended 1 of 2 process(es) for Firefox (others may need higher privileges)")
    );
    assert!(app.processes().iter().any(|p| p.pid == 2264));
    assert!(app.processes().iter().all(|p| p.pid != 2210));
}

#[test]
fn status_lasts_four_seconds() {
    let mut app = sample_app();
    app.app_history_reset(10_000);
    assert!(app.status(9_999).is_none());
    assert!(app.status(10_000).is_some());
    assert!(app.status(13_999).is_some());
    assert!(app.status(14_000).is_none());
    assert!(app.app_history.is_empty());
}

#[test]
fn quit_and_help_keys() {
    let mut app = sample_app();
    press(&mut app, KeyCode::Char('?'));
    assert!(matches!(app.popup, Some(Popup::Help)));
    press(&mut app, KeyCode::Char('q')); // any key closes help
    assert!(app.popup.is_none());
    assert!(!app.should_quit);
    press(&mut app, KeyCode::Char('q'));
    assert!(app.should_quit);

    let mut app = sample_app();
    app.handle_event(Event::Key(Key { code: KeyCode::Char('c'), ctrl: true }), 0);
    assert!(app.should_quit);
}

#[test]
fn reset_and_reload_are_handed_to_the_front_end() {
    let mut app = sample_app();
    press(&mut app, KeyCode::Char('3'));
    assert!(matches!(press(&mut app, KeyCode::Char('r')), Action::ResetAppHistory));
    press(&mut app, KeyCode::Char('7'));
    assert!(matches!(press(&mut app, KeyCode::Char('r')), Action::ReloadLists));
    press(&mut app, KeyCode::Char('1'));
    assert!(matches!(press(&mut app, KeyCode::Char('r')), Action::Nothing));
    app.lists_reloaded(Vec::new(), Vec::new(), 5);
    assert_eq!(app.status(5), Some("Reloaded"));
    assert!(app.services.is_empty());
}

#[test]
fn clicking_a_tab_switches_to_it() {
    let mut app = sample_app();
    let (areas, end) = tab_bar(0, 0);
    assert_eq!(end, 112);
    app.areas.tabs = areas;
    // " 6 Details " starts after the title (21) and the first five entries (68).
    app.handle_event(Event::Mouse(Mouse { kind: MouseKind::LeftDown, column: 21 + 68, row: 0 }), 0);
    assert_eq!(app.tab, Tab::Details);
    app.handle_event(Event::Mouse(Mouse { kind: MouseKind::LeftDown, column: 5, row: 0 }), 0);
    assert_eq!(app.tab, Tab::Details);
}

#[test]
fn typing_a_filter_edits_it() {
    let mut app = sample_app();
    press(&mut app, KeyCode::Char('f'));
    press(&mut app, KeyCode::Char('F'));
    press(&mut app, KeyCode::Char('i'));
    press(&mut app, KeyCode::Backspace);
    assert_eq!(app.tab_state(Tab::Processes).filter, "F");
    press(&mut app, KeyCode::Esc);
    assert!(!app.editing_filter);
    assert_eq!(app.tab_state(Tab::Processes).filter, "");
    // The Performance tab has nothing to filter.
    press(&mut app, KeyCode::Char('2'));
    press(&mut app, KeyCode::Char('/'));
    assert!(!app.editing_filter);
}

#[test]
fn tab_state_can_be_changed_in_place() {
    let mut app = sample_app();
    app.tab_state_mut(Tab::Processes).selected_key = Some("grp:Firefox".to_string());
    let view = app.synced_view();
    let i = app.selected_index().unwrap();
    assert_eq!(view.rows[i].key, "grp:Firefox");
    assert_eq!(i, 1);
}
