use otm::screen::{
    confirm_detail, cores, cpu_title, disk_title, disk_used, empty_message, filter_title, footer_hints,
    graph_start, header_title, help_keys, interface_order, memory_title, network_title, summary_fits,
    tab_bar, tab_title, top_summary, used_of,
};
use otm::model::CPU_UNITS_PER_PERCENT;
use otm::tabs::{SortKey, Tab};

const MB: u64 = 1024 * 1024;
const P: u64 = CPU_UNITS_PER_PERCENT;
const GB: u64 = 1024 * 1024 * 1024;

#[test]
fn tab_bar_entries() {
    assert_eq!(tab_title(Tab::Processes), " 1 Processes ");
    assert_eq!(tab_title(Tab::Services), " 7 Services ");
    let (areas, end) = tab_bar(3, 2);
    assert_eq!(areas.len(), 7);
    assert_eq!((areas[0].0.x, areas[0].0.y, areas[0].0.width, areas[0].0.height), (24, 2, 13, 1));
    assert_eq!(areas[0].1, Tab::Processes);
    assert_eq!((areas[1].0.x, areas[1].0.width), (37, 15));
    assert_eq!(areas[6].1, Tab::Services);
    assert_eq!(areas[6].0.x + areas[6].0.width, end);
    assert_eq!(end, 115);
}

#[test]
fn footer_hints_per_tab() {
    assert_eq!(footer_hints(Tab::Performance), vec![("Tab", "switch"), ("?", "help"), ("q", "quit")]);
    let hints = footer_hints(Tab::AppHistory);
    assert_eq!(hints.len(), 7);
    assert_eq!(hints[4], ("r", "reset"));
    assert_eq!(footer_hints(Tab::Users)[2], ("←→", "expand"));
    assert_eq!(footer_hints(Tab::Startup)[4], ("r", "reload"));
    assert_eq!(footer_hints(Tab::Details)[4], ("x", "end task"));
}

#[test]
fn header_arrows() {
    assert_eq!(header_title("CPU", Some(SortKey::Cpu), SortKey::Cpu, true), "CPU ▼");
    assert_eq!(header_title("Name", Some(SortKey::Name), SortKey::Name, false), "Name ▲");
    assert_eq!(header_title("Name", Some(SortKey::Name), SortKey::Cpu, false), "Name");
    assert_eq!(header_title("Publisher", None, SortKey::Cpu, false), "Publisher");
}

#[test]
fn table_messages() {
    assert_eq!(empty_message(""), "Nothing to show");
    assert_eq!(empty_message("zz"), "No matches");
    assert_eq!(filter_title("", false), None);
    assert_eq!(filter_title("", true), Some(" filter:  ".to_string()));
    assert_eq!(filter_title("otm", false), Some(" filter: otm ".to_string()));
    assert_eq!(confirm_detail(3), "This ends all 3 processes.");
    assert_eq!(confirm_detail(1), "");
    assert_eq!(confirm_detail(0), "");
    assert_eq!(help_keys().len(), 11);
    assert_eq!(help_keys()[0], ("Tab / Shift+Tab, 1–7", "switch tab"));
}

#[test]
fn graph_alignment() {
    assert_eq!(graph_start(0), 60);
    assert_eq!(graph_start(10), 50);
    assert_eq!(graph_start(60), 0);
    assert_eq!(graph_start(70), 0);
}

#[test]
fn summary_and_panel_titles() {
    let used = 12 * GB + 700 * MB;
    let summary = top_summary(23 * P, used, 32 * GB, 3 * 3600 + 12 * 60 + 40);
    assert_eq!(summary, "CPU  23%  Mem 12.7 GB/32.0 GB  Up 03:12:40 ");
    assert_eq!(top_summary(100 * P, 0, GB, 0), "CPU 100%  Mem 0.0 GB/1.0 GB  Up 00:00:00 ");
    assert!(summary_fits(112, &summary, 160));
    assert!(!summary_fits(112, &summary, 120));
    assert!(summary_fits(0, "abc", 5));
    assert!(!summary_fits(1, "abc", 5));
    assert_eq!(cpu_title(23 * P, 3400), " CPU  23% · 3.40 GHz ");
    assert_eq!(cpu_title(45 * P / 2, 0), " CPU  22% · — ");
    assert_eq!(memory_title(used, 32 * GB), " Memory  12.7 GB/32.0 GB (40%) ");
    assert_eq!(memory_title(0, 0), " Memory  0.0 GB/0.0 GB (0%) ");
    assert_eq!(disk_title(2411724, 4 * P), " Disk  2.3 MB/s · 4% active ");
    assert_eq!(network_title(2 * MB, 0), " Network  ↓ 2.0 MB/s  ↑ 0 MB/s ");
}

#[test]
fn system_details() {
    assert_eq!(used_of(0, 8 * GB), "0.0 GB / 8.0 GB");
    assert_eq!(disk_used(953 * GB, 612 * GB), "341.0 GB / 953.0 GB");
    assert_eq!(disk_used(GB, 2 * GB), "0.0 GB / 1.0 GB");
    assert_eq!(cores(12, 16), "12 physical · 16 logical");
    let names = vec!["wlan0".to_string(), "lo".to_string(), "eth0".to_string(), "lo".to_string()];
    assert_eq!(interface_order(&names), vec![2, 1, 3, 0]);
}
