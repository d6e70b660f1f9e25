//! What the screen shows around the tables: the tab bar and its click areas, the footer
//! hints, column headers, panel titles and dialog texts.
use crate::app::{Rect, HISTORY_LEN};
use crate::format::{
    digits, gb, gb_text, hz, hz_text, push_digits, rate, rate_text, round_half_even, round_half_even_exec,
    uptime, uptime_text,
};
use crate::keys::{key_views, push_text_key, text_key};
use crate::order::{is_stable_sort, sorted_order, stable_order};
use crate::tabs::{tab_at, SortKey, Tab, TAB_COUNT};
use crate::text::{push_char, push_str};
use vstd::prelude::*;
use vstd::string::StrSliceExecFns;

verus! {

/// Display width of the title at the left of the top bar, " ◆ Open Task Manager ".
pub const TITLE_WIDTH: u16 = 21;

/// The tab bar entry of a tab: its number (from 1) and its name, padded by a space.
pub open spec fn tab_title_text(t: Tab) -> Seq<char> {
    seq![' '] + digits((t.spec_index() + 1) as nat) + seq![' '] + t.spec_label() + seq![' ']
}

/// The tab bar entry of a tab, e.g. " 1 Processes ".
pub fn tab_title(tab: Tab) -> (s: String)
    ensures
        s@ == tab_title_text(tab),
{
    let mut s = String::new();
    push_char(&mut s, ' ');
    push_digits(&mut s, (tab.index() + 1) as u128);
    push_char(&mut s, ' ');
    push_str(&mut s, tab.label());
    push_char(&mut s, ' ');
    proof {
        assert(s@ =~= tab_title_text(tab));
    }
    s
}

/// Total width of the tab bar entries before position `i`.
pub open spec fn tabs_width_before(i: nat) -> nat
    decreases i,
{
    if i == 0 {
        0
    } else {
        tabs_width_before((i - 1) as nat) + tab_title_text(tab_at(i - 1)).len()
    }
}

/// Where each tab's entry sits when the bar starts at column `left` of row `y`: the entries
/// follow the title, one after the other, each one row high and as wide as its text.
pub open spec fn tab_bar_areas(left: u16, y: u16) -> Seq<(Rect, Tab)> {
    Seq::new(
        TAB_COUNT as nat,
        |i: int|
            (
                Rect {
                    x: (left + TITLE_WIDTH + tabs_width_before(i as nat)) as u16,
                    y,
                    width: tab_title_text(tab_at(i)).len() as u16,
                    height: 1,
                },
                tab_at(i),
            ),
    )
}

/// The width of the title and all tab entries.
pub open spec fn tab_bar_width() -> nat {
    (TITLE_WIDTH + tabs_width_before(TAB_COUNT as nat)) as nat
}

pub(crate) proof fn lemma_tab_widths()
    ensures
        tabs_width_before(0) == 0,
        tabs_width_before(1) == 13,
        tabs_width_before(2) == 28,
        tabs_width_before(3) == 43,
        tabs_width_before(4) == 59,
        tabs_width_before(5) == 68,
        tabs_width_before(6) == 79,
        tabs_width_before(7) == 91,
        forall|i: int| 0 <= i < 7 ==> tabs_width_before((i + 1) as nat) == tabs_width_before(i as nat) + #[trigger] tab_title_text(tab_at(i)).len(),
        forall|i: nat| i <= 7 ==> #[trigger] tabs_width_before(i) <= 91,
        forall|i: int| 0 <= i < 7 ==> #[trigger] tab_title_text(tab_at(i)).len() <= 16,
{
    reveal_strlit("Processes");
    reveal_strlit("Performance");
    reveal_strlit("App history");
    reveal_strlit("Startup apps");
    reveal_strlit("Users");
    reveal_strlit("Details");
    reveal_strlit("Services");
    assert(digits(1).len() == 1);
    assert(digits(2).len() == 1);
    assert(digits(3).len() == 1);
    assert(digits(4).len() == 1);
    assert(digits(5).len() == 1);
    assert(digits(6).len() == 1);
    assert(digits(7).len() == 1);
    assert(tab_title_text(tab_at(0)).len() == 13);
    assert(tab_title_text(tab_at(1)).len() == 15);
    assert(tab_title_text(tab_at(2)).len() == 15);
    assert(tab_title_text(tab_at(3)).len() == 16);
    assert(tab_title_text(tab_at(4)).len() == 9);
    assert(tab_title_text(tab_at(5)).len() == 11);
    assert(tab_title_text(tab_at(6)).len() == 12);
    reveal_with_fuel(tabs_width_before, 8);
}

/// The click areas of the tab bar starting at column `left` of row `y`, and the column just
/// after the last entry.
pub fn tab_bar(left: u16, y: u16) -> (r: (Vec<(Rect, Tab)>, u16))
    requires
        left + tab_bar_width() <= u16::MAX,
    ensures
        r.0@ == tab_bar_areas(left, y),
        r.1 == left + tab_bar_width(),
{
    proof {
        lemma_tab_widths();
    }
    let mut areas: Vec<(Rect, Tab)> = Vec::new();
    let mut x: u16 = left + TITLE_WIDTH;
    let mut i: usize = 0;
    while i < TAB_COUNT
        invariant
            i <= TAB_COUNT,
            left + tab_bar_width() <= u16::MAX,
            tabs_width_before(7) == 91,
            forall|k: nat| k <= 7 ==> #[trigger] tabs_width_before(k) <= 91,
            forall|k: int| 0 <= k < 7 ==> #[trigger] tab_title_text(tab_at(k)).len() <= 16,
            x == left + TITLE_WIDTH + tabs_width_before(i as nat),
            areas@.len() == i,
            forall|k: int| 0 <= k < i ==> #[trigger] areas@[k] == tab_bar_areas(left, y)[k],
        decreases TAB_COUNT - i,
    {
        let tab = Tab::from_index(i);
        let title = tab_title(tab);
        let w = title.as_str().unicode_len();
        proof {
            assert(tabs_width_before((i + 1) as nat) == tabs_width_before(i as nat) + w);
            assert(tabs_width_before((i + 1) as nat) <= 91);
        }
        areas.push((Rect { x, y, width: w as u16, height: 1 }, tab));
        x = x + w as u16;
        i = i + 1;
    }
    proof {
        assert(areas@ =~= tab_bar_areas(left, y));
    }
    (areas, x)
}

/// The key hints of the footer: switching tabs first, help and quit last, and in between
/// what the tab offers.
pub open spec fn hints_for(tab: Tab) -> Seq<(&'static str, &'static str)> {
    let middle: Seq<(&'static str, &'static str)> = match tab {
        Tab::Performance => seq![],
        Tab::Processes | Tab::Users => seq![
            ("↑↓", "move"),
            ("←→", "expand"),
            ("/", "filter"),
            ("s", "sort"),
            ("x", "end task"),
        ],
        Tab::Details => seq![("↑↓", "move"), ("/", "filter"), ("s", "sort"), ("x", "end task")],
        Tab::AppHistory => seq![("↑↓", "move"), ("/", "filter"), ("s", "sort"), ("r", "reset")],
        Tab::Startup | Tab::Services => seq![("↑↓", "move"), ("/", "filter"), ("s", "sort"), ("r", "reload")],
    };
    seq![("Tab", "switch")] + middle + seq![("?", "help"), ("q", "quit")]
}

/// The key hints the footer shows on a tab, as (key, action) pairs.
pub fn footer_hints(tab: Tab) -> (h: Vec<(&'static str, &'static str)>)
    ensures
        h@ == hints_for(tab),
{
    let mut h: Vec<(&'static str, &'static str)> = Vec::new();
    h.push(("Tab", "switch"));
    match tab {
        Tab::Performance => {},
        Tab::Processes | Tab::Users => {
            h.push(("↑↓", "move"));
            h.push(("←→", "expand"));
            h.push(("/", "filter"));
            h.push(("s", "sort"));
            h.push(("x", "end task"));
        },
        Tab::Details => {
            h.push(("↑↓", "move"));
            h.push(("/", "filter"));
            h.push(("s", "sort"));
            h.push(("x", "end task"));
        },
        Tab::AppHistory => {
            h.push(("↑↓", "move"));
            h.push(("/", "filter"));
            h.push(("s", "sort"));
            h.push(("r", "reset"));
        },
        Tab::Startup | Tab::Services => {
            h.push(("↑↓", "move"));
            h.push(("/", "filter"));
            h.push(("s", "sort"));
            h.push(("r", "reload"));
        },
    }
    h.push(("?", "help"));
    h.push(("q", "quit"));
    proof {
        assert(h@ =~= hints_for(tab));
    }
    h
}

/// The marker a column header carries: an arrow down or up on the column the table is
/// sorted by, nothing on the others.
pub open spec fn sort_marker(column_sort: Option<SortKey>, sort: SortKey, desc: bool) -> Seq<char> {
    if column_sort == Some(sort) {
        if desc {
            " ▼"@
        } else {
            " ▲"@
        }
    } else {
        Seq::empty()
    }
}

/// A column header: the title, with the sort arrow when the table is sorted by it.
pub fn header_title(title: &str, column_sort: Option<SortKey>, sort: SortKey, desc: bool) -> (s: String)
    ensures
        s@ == title@ + sort_marker(column_sort, sort, desc),
{
    let mut s = String::new();
    push_str(&mut s, title);
    let sorted_here = match column_sort {
        Some(k) => k == sort,
        None => false,
    };
    if sorted_here {
        if desc {
            push_str(&mut s, " ▼");
        } else {
            push_str(&mut s, " ▲");
        }
    }
    proof {
        assert(s@ =~= title@ + sort_marker(column_sort, sort, desc));
    }
    s
}

/// What an empty table says: that nothing matches the filter, or that there is nothing.
pub fn empty_message(filter: &str) -> (m: &'static str)
    ensures
        m@ == if filter@.len() == 0 {
            "Nothing to show"@
        } else {
            "No matches"@
        },
{
    if filter.unicode_len() == 0 {
        "Nothing to show"
    } else {
        "No matches"
    }
}

/// The filter shown at the right of the table's frame, while it is typed or while it is set.
pub fn filter_title(filter: &str, editing: bool) -> (t: Option<String>)
    ensures
        t is Some <==> (filter@.len() > 0 || editing),
        t matches Some(s) ==> s@ == " filter: "@ + filter@ + " "@,
{
    if filter.unicode_len() > 0 || editing {
        let mut s = String::new();
        push_str(&mut s, " filter: ");
        push_str(&mut s, filter);
        push_str(&mut s, " ");
        Some(s)
    } else {
        None
    }
}

/// The line under a kill confirmation: how many processes end when there are several.
pub open spec fn confirm_detail_text(count: nat) -> Seq<char> {
    if count > 1 {
        "This ends all "@ + digits(count) + " processes."@
    } else {
        Seq::empty()
    }
}

/// The line under a kill confirmation for `count` processes.
pub fn confirm_detail(count: usize) -> (s: String)
    ensures
        s@ == confirm_detail_text(count as nat),
{
    let mut s = String::new();
    if count > 1 {
        push_str(&mut s, "This ends all ");
        push_digits(&mut s, count as u128);
        push_str(&mut s, " processes.");
    }
    proof {
        assert(s@ =~= confirm_detail_text(count as nat));
    }
    s
}

/// Where the oldest of `len` samples sits on a graph's x axis, so that the newest is always
/// at the right edge.
pub fn graph_start(len: usize) -> (x: usize)
    ensures
        x == if len < HISTORY_LEN {
            (HISTORY_LEN - len) as usize
        } else {
            0
        },
{
    HISTORY_LEN.saturating_sub(len)
}

/// The key bindings the help dialog lists, as (keys, action) pairs.
pub open spec fn help_entries() -> Seq<(&'static str, &'static str)> {
    seq![
        ("Tab / Shift+Tab, 1–7", "switch tab"),
        ("↑↓ / j k", "move selection"),
        ("PgUp PgDn / g G", "page / jump to top, bottom"),
        ("→ ← / l h, Enter", "expand / collapse group"),
        ("/ or f", "filter by name"),
        ("Esc", "clear filter"),
        ("s / S", "next sort column / reverse order"),
        ("x / Delete", "end task (asks first)"),
        ("r", "reset App history · reload lists"),
        ("mouse", "click tabs, headers, rows; scroll"),
        ("q / Ctrl+C", "quit"),
    ]
}

/// The key bindings of the help dialog.
pub fn help_keys() -> (k: Vec<(&'static str, &'static str)>)
    ensures
        k@ == help_entries(),
{
    let k = vec![
        ("Tab / Shift+Tab, 1–7", "switch tab"),
        ("↑↓ / j k", "move selection"),
        ("PgUp PgDn / g G", "page / jump to top, bottom"),
        ("→ ← / l h, Enter", "expand / collapse group"),
        ("/ or f", "filter by name"),
        ("Esc", "clear filter"),
        ("s / S", "next sort column / reverse order"),
        ("x / Delete", "end task (asks first)"),
        ("r", "reset App history · reload lists"),
        ("mouse", "click tabs, headers, rows; scroll"),
        ("q / Ctrl+C", "quit"),
    ];
    proof {
        assert(k@ =~= help_entries());
    }
    k
}

/// A share given in units of 2^-40 percent, rounded to a whole percent (half to even), as
/// `{:.0}` shows it.
pub open spec fn whole_percent(units: nat) -> nat {
    round_half_even(units, 1099511627776)
}

/// `s` right-aligned in `w` columns.
pub open spec fn left_padded(s: Seq<char>, w: nat) -> Seq<char> {
    if s.len() < w {
        Seq::new((w - s.len()) as nat, |i: int| ' ') + s
    } else {
        s
    }
}

fn push_left_padded(s: &mut String, t: &str, w: usize)
    ensures
        final(s)@ == old(s)@ + left_padded(t@, w as nat),
{
    let n = t.unicode_len();
    let ghost start = s@;
    let mut k: usize = n;
    while k < w
        invariant
            n == t@.len(),
            n <= k,
            k <= w || n >= w,
            n >= w ==> k == n,
            s@ == start + Seq::new((k - n) as nat, |i: int| ' '),
        decreases w - k,
    {
        push_char(s, ' ');
        proof {
            assert(s@ =~= start + Seq::new((k + 1 - n) as nat, |i: int| ' '));
        }
        k = k + 1;
    }
    push_str(s, t);
    proof {
        if n < w {
            assert(k == w);
            let sp = Seq::new((w - n) as nat, |i: int| ' ');
            assert(s@ =~= (start + sp) + t@);
            assert(left_padded(t@, w as nat) =~= sp + t@);
            vstd::seq_lib::lemma_concat_associative(start, sp, t@);
        } else {
            assert(k == n);
            assert(s@ =~= start + t@);
        }
    }
}

/// The live summary at the right of the top bar.
pub open spec fn top_summary_text(cpu_units: nat, used: nat, total: nat, up: nat) -> Seq<char> {
    "CPU "@ + left_padded(digits(whole_percent(cpu_units)), 3) + "%  Mem "@ + gb_text(used) + "/"@
        + gb_text(total) + "  Up "@ + uptime_text(up) + " "@
}

/// The live summary at the right of the top bar: CPU use (in units of 2^-40 percent),
/// memory used and installed, and the up time in seconds.
pub fn top_summary(cpu_units: u64, used_memory: u64, total_memory: u64, uptime_secs: u64) -> (s: String)
    ensures
        s@ == top_summary_text(cpu_units as nat, used_memory as nat, total_memory as nat, uptime_secs as nat),
{
    let mut s = String::new();
    push_str(&mut s, "CPU ");
    let mut d = String::new();
    push_digits(&mut d, round_half_even_exec(cpu_units as u128, 1099511627776));
    push_left_padded(&mut s, d.as_str(), 3);
    push_str(&mut s, "%  Mem ");
    let u = gb(used_memory);
    push_str(&mut s, u.as_str());
    push_str(&mut s, "/");
    let t = gb(total_memory);
    push_str(&mut s, t.as_str());
    push_str(&mut s, "  Up ");
    let up = uptime(uptime_secs);
    push_str(&mut s, up.as_str());
    push_str(&mut s, " ");
    proof {
        assert(s@ =~= top_summary_text(cpu_units as nat, used_memory as nat, total_memory as nat, uptime_secs as nat));
    }
    s
}

/// Whether the summary fits on the top bar after `used` columns of tabs, leaving a gap of
/// two columns, in a bar `width` columns wide.
pub fn summary_fits(used: u16, summary: &str, width: u16) -> (r: bool)
    ensures
        r == (used + summary@.len() + 2 <= width),
{
    let n = summary.unicode_len();
    n <= width as usize && (used as usize) + 2 <= (width as usize) - n
}

/// The title of the CPU graph: use (in units of 2^-40 percent) and clock speed.
pub open spec fn cpu_title_text(cpu_units: nat, mhz: nat) -> Seq<char> {
    " CPU  "@ + digits(whole_percent(cpu_units)) + "% · "@ + hz_text(mhz) + " "@
}

pub fn cpu_title(cpu_units: u64, mhz: u64) -> (s: String)
    ensures
        s@ == cpu_title_text(cpu_units as nat, mhz as nat),
{
    let mut s = String::new();
    push_str(&mut s, " CPU  ");
    push_digits(&mut s, round_half_even_exec(cpu_units as u128, 1099511627776));
    push_str(&mut s, "% · ");
    let h = hz(mhz);
    push_str(&mut s, h.as_str());
    push_str(&mut s, " ");
    proof {
        assert(s@ =~= cpu_title_text(cpu_units as nat, mhz as nat));
    }
    s
}

/// The share of memory in use, in whole percent (half to even) of the installed memory
/// (taken as at least one byte).
pub open spec fn memory_percent(used: nat, total: nat) -> nat {
    round_half_even(used * 100, if total > 0 {
        total
    } else {
        1
    })
}

/// The title of the memory graph.
pub open spec fn memory_title_text(used: nat, total: nat) -> Seq<char> {
    " Memory  "@ + gb_text(used) + "/"@ + gb_text(total) + " ("@ + digits(memory_percent(used, total))
        + "%) "@
}

pub fn memory_title(used_memory: u64, total_memory: u64) -> (s: String)
    ensures
        s@ == memory_title_text(used_memory as nat, total_memory as nat),
{
    let mut s = String::new();
    push_str(&mut s, " Memory  ");
    let u = gb(used_memory);
    push_str(&mut s, u.as_str());
    push_str(&mut s, "/");
    let t = gb(total_memory);
    push_str(&mut s, t.as_str());
    push_str(&mut s, " (");
    let den: u128 = if total_memory > 0 {
        total_memory as u128
    } else {
        1
    };
    push_digits(&mut s, round_half_even_exec(used_memory as u128 * 100, den));
    push_str(&mut s, "%) ");
    proof {
        assert(s@ =~= memory_title_text(used_memory as nat, total_memory as nat));
    }
    s
}

/// The title of the disk graph: transfer rate and active time (in units of 2^-40 percent).
pub open spec fn disk_title_text(rate: nat, active_units: nat) -> Seq<char> {
    " Disk  "@ + rate_text(rate) + " · "@ + digits(whole_percent(active_units)) + "% active "@
}

pub fn disk_title(bytes_per_sec: u64, active_units: u64) -> (s: String)
    ensures
        s@ == disk_title_text(bytes_per_sec as nat, active_units as nat),
{
    let mut s = String::new();
    push_str(&mut s, " Disk  ");
    let r = rate(bytes_per_sec);
    push_str(&mut s, r.as_str());
    push_str(&mut s, " · ");
    push_digits(&mut s, round_half_even_exec(active_units as u128, 1099511627776));
    push_str(&mut s, "% active ");
    proof {
        assert(s@ =~= disk_title_text(bytes_per_sec as nat, active_units as nat));
    }
    s
}

/// The title of the network graph: receive and send rates.
pub open spec fn network_title_text(rx: nat, tx: nat) -> Seq<char> {
    " Network  ↓ "@ + rate_text(rx) + "  ↑ "@ + rate_text(tx) + " "@
}

pub fn network_title(rx_bytes_per_sec: u64, tx_bytes_per_sec: u64) -> (s: String)
    ensures
        s@ == network_title_text(rx_bytes_per_sec as nat, tx_bytes_per_sec as nat),
{
    let mut s = String::new();
    push_str(&mut s, " Network  ↓ ");
    let rx = rate(rx_bytes_per_sec);
    push_str(&mut s, rx.as_str());
    push_str(&mut s, "  ↑ ");
    let tx = rate(tx_bytes_per_sec);
    push_str(&mut s, tx.as_str());
    push_str(&mut s, " ");
    proof {
        assert(s@ =~= network_title_text(rx_bytes_per_sec as nat, tx_bytes_per_sec as nat));
    }
    s
}

/// "used / total" in gigabytes, as the swap line and the disk table show it.
pub open spec fn used_of_text(used: nat, total: nat) -> Seq<char> {
    gb_text(used) + " / "@ + gb_text(total)
}

pub fn used_of(used: u64, total: u64) -> (s: String)
    ensures
        s@ == used_of_text(used as nat, total as nat),
{
    let mut s = String::new();
    let u = gb(used);
    push_str(&mut s, u.as_str());
    push_str(&mut s, " / ");
    let t = gb(total);
    push_str(&mut s, t.as_str());
    proof {
        assert(s@ =~= used_of_text(used as nat, total as nat));
    }
    s
}

/// A disk's use: its size less the space still available (none when more is reported
/// available than the disk holds), out of its size.
pub fn disk_used(total_bytes: u64, available_bytes: u64) -> (s: String)
    ensures
        s@ == used_of_text(
            if available_bytes < total_bytes {
                (total_bytes - available_bytes) as nat
            } else {
                0
            },
            total_bytes as nat,
        ),
{
    used_of(total_bytes.saturating_sub(available_bytes), total_bytes)
}

/// The processor's core counts.
pub open spec fn cores_text(physical: nat, logical: nat) -> Seq<char> {
    digits(physical) + " physical · "@ + digits(logical) + " logical"@
}

pub fn cores(physical: u64, logical: u64) -> (s: String)
    ensures
        s@ == cores_text(physical as nat, logical as nat),
{
    let mut s = String::new();
    push_digits(&mut s, physical as u128);
    push_str(&mut s, " physical · ");
    push_digits(&mut s, logical as u128);
    push_str(&mut s, " logical");
    proof {
        assert(s@ =~= cores_text(physical as nat, logical as nat));
    }
    s
}

/// The keys that order network interfaces by name.
pub open spec fn name_keys(names: Seq<String>) -> Seq<Seq<u64>> {
    Seq::new(names.len(), |i: int| text_key(names[i]@))
}

/// The order in which the network table lists interfaces: by name, character by character,
/// equal names in their given order.
pub fn interface_order(names: &Vec<String>) -> (order: Vec<usize>)
    ensures
        order@ == sorted_order(name_keys(names@), false),
        is_stable_sort(name_keys(names@), false, order@),
{
    let mut keys: Vec<Vec<u64>> = Vec::new();
    let mut i: usize = 0;
    while i < names.len()
        invariant
            i <= names.len(),
            keys.len() == i,
            forall|k: int| 0 <= k < i ==> #[trigger] keys@[k]@ == text_key(names@[k]@),
        decreases names.len() - i,
    {
        let mut k: Vec<u64> = Vec::new();
        push_text_key(&mut k, names[i].as_str());
        proof {
            assert(k@ =~= text_key(names@[i as int]@));
        }
        keys.push(k);
        i = i + 1;
    }
    proof {
        assert(key_views(keys@) =~= name_keys(names@));
    }
    stable_order(&keys, false)
}

} // verus!
