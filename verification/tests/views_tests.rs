use otm::grouped::{processes, users};
use otm::model::{CPU_UNITS_PER_PERCENT, check_totals, AppHistoryEntry, ProcessInfo, ServiceInfo, StartupAppInfo};
use otm::tabs::SortKey;
use otm::views::{app_history, details, services, startup, Tone, Toggle};

const MB: u64 = 1024 * 1024;
const GB: u64 = 1024 * 1024 * 1024;

fn process(pid: u32, name: &str, cpu: f32, mem_mb: u64, user: &str) -> ProcessInfo {
    ProcessInfo {
        pid,
        name: name.to_string(),
        cpu_units: (cpu as f64 * CPU_UNITS_PER_PERCENT as f64) as u64,
        memory: mem_mb * MB,
        disk_bytes_per_sec: 0,
        status: "Sleeping".to_string(),
        user_name: Some(user.to_string()),
    }
}

fn sample() -> Vec<ProcessInfo> {
    vec![
        process(1, "Systemd", 0.0, 14, "root"),
        process(2210, "Firefox", 9.8, 612, "alex"),
        process(2264, "Firefox", 6.1, 388, "alex"),
        process(3105, "Code", 4.9, 540, "alex"),
        process(6010, "otm", 0.3, 9, "alex"),
        process(911, "Dbus Daemon", 0.1, 6, "messagebus"),
    ]
}

fn keys(rows: &[otm::views::ViewRow]) -> Vec<String> {
    rows.iter().map(|r| r.key.clone()).collect()
}

#[test]
fn processes_are_grouped_into_apps_and_background() {
    let ps = sample();
    let v = processes(&ps, "", SortKey::Cpu, true, &Vec::new(), &Vec::new(), 32 * GB);
    assert_eq!(v.title, "Processes · 6");
    assert_eq!(
        keys(&v.rows),
        vec!["sec:apps", "grp:Firefox", "pid:3105", "pid:6010", "sec:background", "pid:911", "pid:1"]
    );
    assert_eq!(v.rows[0].cells[0].text, "▾ Apps (3)");
    assert_eq!(v.rows[1].cells[0].text, "  ▸ Firefox (2)");
    assert_eq!(v.rows[1].cells[1].text, "");
    assert_eq!(v.rows[1].cells[2].text, "15.9%");
    assert_eq!(v.rows[1].cells[3].text, "1000.0 MB");
    assert_eq!(v.rows[1].pids, vec![2210, 2264]);
    assert_eq!(v.rows[1].toggle, Toggle::Expand);
    assert_eq!(v.rows[2].cells[0].text, "    Code");
    assert_eq!(v.rows[2].cells[1].text, "3105");
    assert_eq!(v.rows[4].cells[0].text, "▾ Background processes (2)");
}

#[test]
fn expanded_groups_and_collapsed_sections() {
    let ps = sample();
    let v = processes(
        &ps,
        "",
        SortKey::Name,
        false,
        &vec!["grp:Firefox".to_string()],
        &vec!["sec:background".to_string()],
        32 * GB,
    );
    assert_eq!(
        keys(&v.rows),
        vec!["sec:apps", "pid:3105", "grp:Firefox", "pid:2210", "pid:2264", "pid:6010", "sec:background"]
    );
    assert_eq!(v.rows[2].cells[0].text, "  ▾ Firefox (2)");
    assert_eq!(v.rows[3].cells[0].text, "      └ Firefox");
    assert_eq!(v.rows[3].label, "Firefox (PID 2210)");
    assert_eq!(v.rows[6].cells[0].text, "▸ Background processes (2)");
}

#[test]
fn filtered_processes() {
    let ps = sample();
    let v = processes(&ps, "FIRE", SortKey::Cpu, true, &Vec::new(), &Vec::new(), 32 * GB);
    assert_eq!(v.title, "Processes · 2");
    assert_eq!(keys(&v.rows), vec!["sec:apps", "grp:Firefox"]);
}

#[test]
fn users_group_by_owner() {
    let ps = sample();
    let v = users(&ps, "", SortKey::Cpu, true, &vec!["user:messagebus".to_string()], 32 * GB);
    assert_eq!(v.title, "Users · 3");
    assert_eq!(keys(&v.rows), vec!["user:alex", "user:messagebus", "pid:911", "user:root"]);
    assert_eq!(v.rows[0].cells[0].text, "▸ alex (4)");
    assert_eq!(v.rows[0].cells[1].text, "21.1%");
    assert_eq!(v.rows[2].cells[0].text, "    └ Dbus Daemon (911)");
}

#[test]
fn details_one_row_per_process() {
    let ps = sample();
    let v = details(&ps, "", SortKey::Pid, false, 32 * GB);
    assert_eq!(v.title, "Details · 6");
    assert_eq!(keys(&v.rows), vec!["pid:1", "pid:911", "pid:2210", "pid:2264", "pid:3105", "pid:6010"]);
    let texts: Vec<String> = v.rows[2].cells.iter().map(|c| c.text.clone()).collect();
    assert_eq!(texts, vec!["Firefox", "2210", "Sleeping", "alex", "9.8%", "612.0 MB"]);
    let titles: Vec<String> = v.columns.iter().map(|c| c.title.clone()).collect();
    assert_eq!(titles, vec!["Name", "PID", "Status", "User name", "CPU", "Memory"]);
}

#[test]
fn lists_of_history_startup_and_services() {
    let h = vec![
        AppHistoryEntry { name: "Code".to_string(), cpu_millis: 1_720_000 },
        AppHistoryEntry { name: "Firefox".to_string(), cpu_millis: 2_941_000 },
    ];
    let v = app_history(&h, "", SortKey::Cpu, true);
    assert_eq!(v.title, "App history · CPU time since launch · 2");
    assert_eq!(v.rows[0].cells[0].text, "Firefox");
    let s = vec![
        StartupAppInfo { name: "b".to_string(), publisher: "B".to_string(), enabled: false },
        StartupAppInfo { name: "a".to_string(), publisher: "A".to_string(), enabled: true },
    ];
    let v = startup(&s, "", SortKey::Name, false);
    assert_eq!(v.title, "Startup apps · 2");
    assert_eq!(v.rows[0].cells[0].text, "a");
    let x = vec![ServiceInfo { name: "sshd".to_string(), description: "OpenSSH".to_string(), status: "Running".to_string() }];
    let v = services(&x, "open", SortKey::Name, false);
    assert_eq!(v.title, "Services · 1");
}

#[test]
fn totals_are_checked() {
    assert!(check_totals(&sample()));
    let mut big = sample();
    big[0].memory = u64::MAX;
    assert!(!check_totals(&big));
    assert!(check_totals(&Vec::new()));
}

#[test]
fn heat_colours_use_absolute_thresholds() {
    let mut ps = vec![
        process(1, "cool", 9.999, 1, "u"),
        process(2, "warm", 10.0, 1, "u"),
        process(3, "hot", 50.0, 1, "u"),
    ];
    ps[1].memory = 2 * MB; // 2% of 100 MiB
    ps[2].memory = 10 * MB; // 10% of 100 MiB
    ps[2].disk_bytes_per_sec = 10 * MB;
    let v = details(&ps, "", SortKey::Pid, false, 100 * MB);
    let cpu: Vec<Tone> = v.rows.iter().map(|r| r.cells[4].tone).collect();
    assert_eq!(cpu, vec![Tone::Plain, Tone::Warm, Tone::Hot]);
    let mem: Vec<Tone> = v.rows.iter().map(|r| r.cells[5].tone).collect();
    assert_eq!(mem, vec![Tone::Plain, Tone::Warm, Tone::Hot]);
    let p = processes(&ps, "", SortKey::Pid, false, &Vec::new(), &Vec::new(), 100 * MB);
    // The "hot" row of the Apps section: disk at 10 MB/s is hot.
    let hot = p.rows.iter().find(|r| r.key == "pid:3").unwrap();
    assert_eq!(hot.cells[4].text, "10.0 MB/s");
    assert_eq!(hot.cells[4].tone, Tone::Hot);
    assert_eq!(v.rows[2].cells[2].tone, Tone::Plain);
    assert_eq!(v.rows[2].cells[1].tone, Tone::Dim);
}

#[test]
fn group_shares_add_up_before_rounding() {
    // Two processes at 0.0254% each: their group shows 0.0508%, which rounds to 0.1%.
    let ps = vec![process(1, "Worker", 0.0254, 1, "u"), process(2, "Worker", 0.0254, 1, "u")];
    let v = processes(&ps, "", SortKey::Cpu, true, &Vec::new(), &Vec::new(), 32 * GB);
    assert_eq!(v.rows[1].key, "grp:Worker");
    assert_eq!(v.rows[1].cells[2].text, "0.1%");
    let one = details(&ps, "", SortKey::Pid, false, 32 * GB);
    assert_eq!(one.rows[0].cells[4].text, "0.0%");
}
