//! Turns the system data into table views, one builder per tab: which rows there are, in which
//! order, what each row's cells read, and what selecting, expanding or ending a row acts on.
use crate::format::{
    bytes, bytes_text, digits, percent, percent_text, push_digits, rate, rate_text, uptime,
    uptime_text,
};
use crate::keys::{key_views, opt_text_key, push_opt_text_key, push_text_key, text_key};
use crate::model::{AppHistoryEntry, ProcessInfo, ServiceInfo, StartupAppInfo};
use crate::order::{lemma_sorted_order_exists, sorted_order, stable_order};
use crate::tabs::SortKey;
use crate::text::{contains, contains_ignoring_case, lowercase, push_str, to_lower};
use vstd::prelude::*;
use vstd::string::{StrSliceExecFns, StringExecFns};
use vstd::view::View as _;

verus! {

/// What a row does when it is expanded or collapsed.
#[derive(Clone, Copy, PartialEq, Eq, Structural, Debug)]
pub enum Toggle {
    /// A plain row with nothing to expand.
    Leaf,
    /// A group row that expands to show its members (collapsed by default).
    Expand,
    /// A section header that collapses its contents (expanded by default).
    Section,
}

/// The colour of a cell.
#[derive(Clone, Copy, PartialEq, Eq, Structural, Debug)]
pub enum Tone {
    Plain,
    /// Dark grey: PIDs and inactive states.
    Dim,
    /// Grey: secondary text.
    Muted,
    /// Yellow: a noticeable load.
    Warm,
    /// Bold light red: the load that keeps the machine busy.
    Hot,
    /// Green: running or enabled.
    Good,
}

/// The style of a whole row.
#[derive(Clone, Copy, PartialEq, Eq, Structural, Debug)]
pub enum RowTone {
    Plain,
    /// Bold cyan section header.
    Section,
    /// Bold group row.
    Group,
    /// Grey row nested under a group.
    Child,
}

/// How a column's width is chosen.
#[derive(Clone, Copy, PartialEq, Eq, Structural, Debug)]
pub enum Width {
    Min(u16),
    Length(u16),
    Fill(u16),
}

/// One table cell.
#[derive(Clone, Debug)]
pub struct Cell {
    pub text: String,
    pub right: bool,
    pub tone: Tone,
}

/// The content of a cell: text, right alignment and tone.
pub struct CellSpec {
    pub text: Seq<char>,
    pub right: bool,
    pub tone: Tone,
}

impl vstd::view::View for Cell {
    type V = CellSpec;

    open spec fn view(&self) -> CellSpec {
        CellSpec { text: self.text@, right: self.right, tone: self.tone }
    }
}

/// A column header.
#[derive(Clone, Debug)]
pub struct Column {
    pub title: String,
    pub width: Width,
    pub sort: Option<SortKey>,
    pub right: bool,
}

pub struct ColumnSpec {
    pub title: Seq<char>,
    pub width: Width,
    pub sort: Option<SortKey>,
    pub right: bool,
}

impl vstd::view::View for Column {
    type V = ColumnSpec;

    open spec fn view(&self) -> ColumnSpec {
        ColumnSpec { title: self.title@, width: self.width, sort: self.sort, right: self.right }
    }
}

/// One table row.
#[derive(Clone, Debug)]
pub struct ViewRow {
    /// Stable identity used to keep the selection on the same item across refreshes.
    pub key: String,
    /// Human-readable name for the end-task confirmation.
    pub label: String,
    /// Processes that "End task" on this row would end (empty = not endable).
    pub pids: Vec<u32>,
    pub toggle: Toggle,
    pub cells: Vec<Cell>,
    pub style: RowTone,
}

pub struct RowSpec {
    pub key: Seq<char>,
    pub label: Seq<char>,
    pub pids: Seq<u32>,
    pub toggle: Toggle,
    pub cells: Seq<CellSpec>,
    pub style: RowTone,
}

impl vstd::view::View for ViewRow {
    type V = RowSpec;

    open spec fn view(&self) -> RowSpec {
        RowSpec {
            key: self.key@,
            label: self.label@,
            pids: self.pids@,
            toggle: self.toggle,
            cells: self.cells@.map_values(|c: Cell| c@),
            style: self.style,
        }
    }
}

/// A whole table: its columns, rows and panel title.
pub struct View {
    pub columns: Vec<Column>,
    pub rows: Vec<ViewRow>,
    pub title: String,
}

pub struct ViewSpec {
    pub columns: Seq<ColumnSpec>,
    pub rows: Seq<RowSpec>,
    pub title: Seq<char>,
}

impl vstd::view::View for View {
    type V = ViewSpec;

    open spec fn view(&self) -> ViewSpec {
        ViewSpec {
            columns: self.columns@.map_values(|c: Column| c@),
            rows: self.rows@.map_values(|r: ViewRow| r@),
            title: self.title@,
        }
    }
}

// ---------------------------------------------------------------------------------------------
// Cells

pub open spec fn text_cell(s: Seq<char>) -> CellSpec {
    CellSpec { text: s, right: false, tone: Tone::Plain }
}

pub open spec fn num_cell(s: Seq<char>, tone: Tone) -> CellSpec {
    CellSpec { text: s, right: true, tone }
}

pub open spec fn toned_cell(s: Seq<char>, tone: Tone) -> CellSpec {
    CellSpec { text: s, right: false, tone }
}

pub(crate) fn text(s: String) -> (c: Cell)
    ensures
        c@ == text_cell(s@),
{
    Cell { text: s, right: false, tone: Tone::Plain }
}

pub(crate) fn num(s: String, tone: Tone) -> (c: Cell)
    ensures
        c@ == num_cell(s@, tone),
{
    Cell { text: s, right: true, tone }
}

pub(crate) fn toned(s: String, tone: Tone) -> (c: Cell)
    ensures
        c@ == toned_cell(s@, tone),
{
    Cell { text: s, right: false, tone }
}

/// Heat colouring with absolute thresholds: `warn` and above is noticeable, `hot` and above
/// is what keeps the machine busy.
pub open spec fn heat_tone(hot: bool, warn: bool) -> Tone {
    if hot {
        Tone::Hot
    } else if warn {
        Tone::Warm
    } else {
        Tone::Plain
    }
}

/// CPU share of one core: 10% is noticeable, 50% hot.
pub open spec fn cpu_tone(cpu_units: nat) -> Tone {
    heat_tone(cpu_units >= 50 * 1099511627776, cpu_units >= 10 * 1099511627776)
}

/// Share of total memory: 2% is noticeable, 10% hot (a total of 0 counts as 1).
pub open spec fn mem_tone(memory: nat, total: nat) -> Tone {
    let t = if total == 0 {
        1
    } else {
        total
    };
    heat_tone(memory * 10 >= t, memory * 50 >= t)
}

/// Disk rate: 1 MB/s is noticeable, 10 MB/s hot.
pub open spec fn disk_tone(rate: nat) -> Tone {
    heat_tone(rate >= 10485760, rate >= 1048576)
}

/// Green for a running or enabled item, dark grey otherwise.
pub open spec fn status_tone(status: Seq<char>) -> Tone {
    if status == "Running"@ || status == "Enabled"@ {
        Tone::Good
    } else {
        Tone::Dim
    }
}

pub(crate) fn heat(hot: bool, warn: bool) -> (t: Tone)
    ensures
        t == heat_tone(hot, warn),
{
    if hot {
        Tone::Hot
    } else if warn {
        Tone::Warm
    } else {
        Tone::Plain
    }
}

pub(crate) fn cpu_heat(cpu_units: u64) -> (t: Tone)
    ensures
        t == cpu_tone(cpu_units as nat),
{
    heat(cpu_units >= 54975581388800, cpu_units >= 10995116277760)
}

pub(crate) fn mem_heat(memory: u64, total: u64) -> (t: Tone)
    ensures
        t == mem_tone(memory as nat, total as nat),
{
    let t: u128 = if total == 0 {
        1
    } else {
        total as u128
    };
    heat(memory as u128 * 10 >= t, memory as u128 * 50 >= t)
}

pub(crate) fn disk_heat(rate: u64) -> (t: Tone)
    ensures
        t == disk_tone(rate as nat),
{
    heat(rate >= 10485760, rate >= 1048576)
}

fn str_eq(a: &str, b: &str) -> (r: bool)
    ensures
        r == (a@ == b@),
{
    let x = String::from_str(a);
    let y = String::from_str(b);
    x == y
}

pub(crate) fn status_style(status: &str) -> (t: Tone)
    ensures
        t == status_tone(status@),
{
    if str_eq(status, "Running") || str_eq(status, "Enabled") {
        Tone::Good
    } else {
        Tone::Dim
    }
}

// ---------------------------------------------------------------------------------------------
// Filtering and sorting

/// An item's text matches the filter: the filter is empty, or the text contains it once both
/// are lowercased.
pub open spec fn matches_filter(text: Seq<char>, filter: Seq<char>) -> bool {
    filter.len() == 0 || contains(lowercase(text), lowercase(filter))
}

/// The positions of the items whose text matches the filter, in order.
pub open spec fn filtered(texts: Seq<Seq<char>>, filter: Seq<char>) -> Seq<usize>
    decreases texts.len(),
{
    if texts.len() == 0 {
        Seq::empty()
    } else {
        let rest = filtered(texts.drop_last(), filter);
        if matches_filter(texts.last(), filter) {
            rest.push((texts.len() - 1) as usize)
        } else {
            rest
        }
    }
}

/// The sort key of a process for a column.
pub open spec fn process_key(p: ProcessInfo, key: SortKey) -> Seq<u64> {
    match key {
        SortKey::Name => text_key(lowercase(p.name@)),
        SortKey::Pid => seq![p.pid as u64],
        SortKey::Status => text_key(p.status@),
        SortKey::User => opt_text_key(
            match p.user_name {
                None => None,
                Some(u) => Some(u@),
            },
        ),
        SortKey::Cpu => seq![p.cpu_units],
        SortKey::Memory => seq![p.memory],
        SortKey::Disk => seq![p.disk_bytes_per_sec],
    }
}

/// `idx` reordered by the stable sort of `keys` (one key per entry of `idx`).
pub open spec fn reorder(idx: Seq<usize>, keys: Seq<Seq<u64>>, desc: bool) -> Seq<usize> {
    sorted_order(keys, desc).map_values(|j: usize| idx[j as int])
}

/// Reordering by a stable sort keeps every entry, once each: the result lists the same
/// entries as `idx`, and distinct entries stay distinct.
pub proof fn lemma_reorder_permutes(idx: Seq<usize>, keys: Seq<Seq<u64>>, desc: bool)
    requires
        keys.len() == idx.len(),
        idx.len() <= usize::MAX,
    ensures
        reorder(idx, keys, desc).len() == idx.len(),
        forall|i: usize| reorder(idx, keys, desc).contains(i) <==> idx.contains(i),
        (forall|a: int, b: int| 0 <= a < b < idx.len() ==> idx[a] != idx[b]) ==> (forall|a: int, b: int|
            0 <= a < b < idx.len() ==> reorder(idx, keys, desc)[a] != reorder(idx, keys, desc)[b]),
{
    let s = sorted_order(keys, desc);
    lemma_sorted_order_exists(keys, desc);
    let r = reorder(idx, keys, desc);
    assert forall|i: usize| r.contains(i) <==> idx.contains(i) by {
        if r.contains(i) {
            let a = choose|a: int| 0 <= a < r.len() && r[a] == i;
            assert(idx[s[a] as int] == i);
        }
        if idx.contains(i) {
            let k = choose|k: int| 0 <= k < idx.len() && idx[k] == i;
            assert(s.contains(k as usize));
            let a = choose|a: int| 0 <= a < s.len() && s[a] == k as usize;
            assert(r[a] == i);
        }
    }
    if forall|a: int, b: int| 0 <= a < b < idx.len() ==> idx[a] != idx[b] {
        assert forall|a: int, b: int| 0 <= a < b < idx.len() implies r[a] != r[b] by {
            assert(s[a] != s[b]);
            if s[a] < s[b] {
                assert(idx[s[a] as int] != idx[s[b] as int]);
            } else {
                assert(idx[s[b] as int] != idx[s[a] as int]);
            }
        }
    }
}

/// The processes at `idx` in the order of a process column.
pub open spec fn sort_processes(ps: Seq<ProcessInfo>, idx: Seq<usize>, key: SortKey, desc: bool) -> Seq<usize> {
    reorder(idx, idx.map_values(|i: usize| process_key(ps[i as int], key)), desc)
}

/// Builds the key of a process for a column.
pub fn process_key_exec(p: &ProcessInfo, key: SortKey) -> (k: Vec<u64>)
    ensures
        k@ == process_key(*p, key),
{
    let mut k: Vec<u64> = Vec::new();
    match key {
        SortKey::Name => {
            let l = to_lower(p.name.as_str());
            push_text_key(&mut k, l.as_str());
        },
        SortKey::Pid => {
            k.push(p.pid as u64);
        },
        SortKey::Status => {
            push_text_key(&mut k, p.status.as_str());
        },
        SortKey::User => {
            push_opt_text_key(&mut k, &p.user_name);
        },
        SortKey::Cpu => {
            k.push(p.cpu_units);
        },
        SortKey::Memory => {
            k.push(p.memory);
        },
        SortKey::Disk => {
            k.push(p.disk_bytes_per_sec);
        },
    }
    proof {
        assert(k@ =~= process_key(*p, key));
    }
    k
}

/// Reorders `idx` by the stable sort of `keys`.
pub fn reorder_exec(idx: &Vec<usize>, keys: &Vec<Vec<u64>>, desc: bool) -> (r: Vec<usize>)
    requires
        keys.len() == idx.len(),
    ensures
        r@ == reorder(idx@, key_views(keys@), desc),
        r.len() == idx.len(),
        forall|a: int| 0 <= a < r.len() ==> idx@.contains(#[trigger] r@[a]),
        (forall|a: int, b: int| 0 <= a < b < idx.len() ==> idx@[a] != idx@[b]) ==> (forall|a: int, b: int|
            0 <= a < b < r.len() ==> r@[a] != r@[b]),
{
    let order = stable_order(keys, desc);
    let mut r: Vec<usize> = Vec::new();
    let mut k: usize = 0;
    while k < order.len()
        invariant
            k <= order.len(),
            order.len() == idx.len(),
            forall|a: int| 0 <= a < order.len() ==> #[trigger] order@[a] < idx.len(),
            order@ == sorted_order(key_views(keys@), desc),
            forall|a: int, b: int| 0 <= a < b < order.len() ==> order@[a] != order@[b],
            r@ =~= order@.take(k as int).map_values(|j: usize| idx@[j as int]),
            forall|a: int| 0 <= a < r.len() ==> idx@.contains(#[trigger] r@[a]),
        decreases order.len() - k,
    {
        proof {
            assert(idx@.contains(idx@[order@[k as int] as int]));
        }
        r.push(idx[order[k]]);
        k = k + 1;
        proof {
            assert(order@.take(k as int) =~= order@.take(k - 1).push(order@[k - 1]));
        }
    }
    proof {
        assert(order@.take(order.len() as int) =~= order@);
        if forall|a: int, b: int| 0 <= a < b < idx.len() ==> idx@[a] != idx@[b] {
            assert forall|a: int, b: int| 0 <= a < b < r.len() implies r@[a] != r@[b] by {
                assert(r@[a] == idx@[order@[a] as int]);
                assert(r@[b] == idx@[order@[b] as int]);
                if order@[a] < order@[b] {
                } else {
                    assert(order@[a] != order@[b]);
                }
            }
        }
    }
    r
}

/// The processes at `idx` sorted by a column.
pub fn sort_processes_exec(ps: &Vec<ProcessInfo>, idx: &Vec<usize>, key: SortKey, desc: bool) -> (r: Vec<usize>)
    requires
        forall|a: int| 0 <= a < idx.len() ==> #[trigger] idx@[a] < ps.len(),
    ensures
        r@ == sort_processes(ps@, idx@, key, desc),
        r.len() == idx.len(),
        forall|a: int| 0 <= a < r.len() ==> #[trigger] r@[a] < ps.len(),
{
    let mut keys: Vec<Vec<u64>> = Vec::new();
    let mut k: usize = 0;
    while k < idx.len()
        invariant
            k <= idx.len(),
            forall|a: int| 0 <= a < idx.len() ==> #[trigger] idx@[a] < ps.len(),
            keys.len() == k,
            forall|a: int| 0 <= a < k ==> #[trigger] keys@[a]@ == process_key(ps@[idx@[a] as int], key),
        decreases idx.len() - k,
    {
        let kk = process_key_exec(&ps[idx[k]], key);
        keys.push(kk);
        k = k + 1;
    }
    proof {
        assert(key_views(keys@) =~= idx@.map_values(|i: usize| process_key(ps@[i as int], key)));
    }
    let r = reorder_exec(idx, &keys, desc);
    proof {
        assert forall|a: int| 0 <= a < r.len() implies #[trigger] r@[a] < ps.len() by {
            assert(idx@.contains(r@[a]));
        }
    }
    r
}

/// The texts of a list of strings.
pub open spec fn string_views(v: Seq<String>) -> Seq<Seq<char>> {
    Seq::new(v.len(), |i: int| v[i]@)
}

/// The positions of the texts that contain `filter`, ignoring case.
pub fn filter_exec(texts: &Vec<String>, filter: &str) -> (r: Vec<usize>)
    ensures
        r@ == filtered(string_views(texts@), filter@),
        forall|a: int| 0 <= a < r.len() ==> #[trigger] r@[a] < texts.len(),
        forall|a: int, b: int| 0 <= a < b < r.len() ==> r@[a] < r@[b],
{
    let keep_all = filter.unicode_len() == 0;
    let mut r: Vec<usize> = Vec::new();
    let mut i: usize = 0;
    while i < texts.len()
        invariant
            i <= texts.len(),
            keep_all == (filter@.len() == 0),
            r@ == filtered(string_views(texts@).take(i as int), filter@),
            forall|a: int| 0 <= a < r.len() ==> #[trigger] r@[a] < i,
            forall|a: int, b: int| 0 <= a < b < r.len() ==> r@[a] < r@[b],
        decreases texts.len() - i,
    {
        proof {
            assert(string_views(texts@).take(i + 1).drop_last() =~= string_views(texts@).take(i as int));
        }
        if keep_all || contains_ignoring_case(texts[i].as_str(), filter) {
            r.push(i);
        }
        i = i + 1;
    }
    proof {
        assert(string_views(texts@).take(i as int) =~= string_views(texts@));
    }
    r
}

/// The names of the processes.
pub open spec fn process_names(ps: Seq<ProcessInfo>) -> Seq<Seq<char>> {
    Seq::new(ps.len(), |i: int| ps[i].name@)
}

fn process_names_exec(ps: &Vec<ProcessInfo>) -> (r: Vec<String>)
    ensures
        string_views(r@) == process_names(ps@),
{
    let mut r: Vec<String> = Vec::new();
    let mut i: usize = 0;
    while i < ps.len()
        invariant
            i <= ps.len(),
            r.len() == i,
            forall|a: int| 0 <= a < i ==> #[trigger] r@[a]@ == ps@[a].name@,
        decreases ps.len() - i,
    {
        r.push(ps[i].name.clone());
        i = i + 1;
    }
    proof {
        assert(string_views(r@) =~= process_names(ps@));
    }
    r
}

/// "pid:1234": the row key of a single process.
pub open spec fn pid_key(pid: u32) -> Seq<char> {
    "pid:"@ + digits(pid as nat)
}

/// "name (PID 1234)": how the end-task prompt names a single process.
pub open spec fn pid_label(name: Seq<char>, pid: u32) -> Seq<char> {
    name + " (PID "@ + digits(pid as nat) + ")"@
}

pub(crate) fn pid_key_exec(pid: u32) -> (s: String)
    ensures
        s@ == pid_key(pid),
{
    let mut s = String::new();
    push_str(&mut s, "pid:");
    push_digits(&mut s, pid as u128);
    s
}

pub(crate) fn pid_label_exec(name: &str, pid: u32) -> (s: String)
    ensures
        s@ == pid_label(name@, pid),
{
    let mut s = String::from_str(name);
    push_str(&mut s, " (PID ");
    push_digits(&mut s, pid as u128);
    push_str(&mut s, ")");
    s
}

pub(crate) fn digits_exec(n: u128) -> (s: String)
    ensures
        s@ == digits(n as nat),
{
    let mut s = String::new();
    push_digits(&mut s, n);
    proof {
        assert(s@ =~= digits(n as nat));
    }
    s
}

// ---------------------------------------------------------------------------------------------
// Details: one row per process

pub open spec fn user_text(u: Option<String>) -> Seq<char> {
    match u {
        Some(name) => name@,
        None => "—"@,
    }
}

pub open spec fn details_row(p: ProcessInfo, total_memory: u64) -> RowSpec {
    RowSpec {
        key: pid_key(p.pid),
        label: pid_label(p.name@, p.pid),
        pids: seq![p.pid],
        toggle: Toggle::Leaf,
        cells: seq![
            text_cell(p.name@),
            num_cell(digits(p.pid as nat), Tone::Dim),
            text_cell(p.status@),
            text_cell(user_text(p.user_name)),
            num_cell(percent_text(p.cpu_units as nat), cpu_tone(p.cpu_units as nat)),
            num_cell(bytes_text(p.memory as nat), mem_tone(p.memory as nat, total_memory as nat)),
        ],
        style: RowTone::Plain,
    }
}

fn details_row_exec(p: &ProcessInfo, total_memory: u64) -> (r: ViewRow)
    ensures
        r@ == details_row(*p, total_memory),
{
    let mut pids: Vec<u32> = Vec::new();
    pids.push(p.pid);
    let user = match &p.user_name {
        Some(u) => u.clone(),
        None => String::from_str("—"),
    };
    let cells = vec![
        text(p.name.clone()),
        num(digits_exec(p.pid as u128), Tone::Dim),
        text(p.status.clone()),
        text(user),
        num(percent(p.cpu_units), cpu_heat(p.cpu_units)),
        num(bytes(p.memory), mem_heat(p.memory, total_memory)),
    ];
    let r = ViewRow {
        key: pid_key_exec(p.pid),
        label: pid_label_exec(p.name.as_str(), p.pid),
        pids,
        toggle: Toggle::Leaf,
        cells,
        style: RowTone::Plain,
    };
    proof {
        assert(r@.cells =~= details_row(*p, total_memory).cells);
        assert(r@.pids =~= seq![p.pid]);
    }
    r
}

pub open spec fn column(title: Seq<char>, width: Width, sort: Option<SortKey>, right: bool) -> ColumnSpec {
    ColumnSpec { title, width, sort, right }
}

pub(crate) fn col(title: &str, width: Width, sort: Option<SortKey>, right: bool) -> (c: Column)
    ensures
        c@ == column(title@, width, sort, right),
{
    Column { title: String::from_str(title), width, sort, right }
}

pub open spec fn details_columns() -> Seq<ColumnSpec> {
    seq![
        column("Name"@, Width::Min(20), Some(SortKey::Name), false),
        column("PID"@, Width::Length(8), Some(SortKey::Pid), true),
        column("Status"@, Width::Length(10), Some(SortKey::Status), false),
        column("User name"@, Width::Length(14), Some(SortKey::User), false),
        column("CPU"@, Width::Length(8), Some(SortKey::Cpu), true),
        column("Memory"@, Width::Length(11), Some(SortKey::Memory), true),
    ]
}

/// The Details tab: every process that matches the filter, sorted by the tab's column.
pub open spec fn details_view(ps: Seq<ProcessInfo>, filter: Seq<char>, sort: SortKey, desc: bool, total_memory: u64) -> ViewSpec {
    let order = sort_processes(ps, filtered(process_names(ps), filter), sort, desc);
    ViewSpec {
        columns: details_columns(),
        rows: order.map_values(|i: usize| details_row(ps[i as int], total_memory)),
        title: "Details · "@ + digits(order.len()),
    }
}

fn rows_of_processes(ps: &Vec<ProcessInfo>, order: &Vec<usize>, total_memory: u64) -> (rows: Vec<ViewRow>)
    requires
        forall|a: int| 0 <= a < order.len() ==> #[trigger] order@[a] < ps.len(),
    ensures
        rows@.map_values(|r: ViewRow| r@) == order@.map_values(|i: usize| details_row(ps@[i as int], total_memory)),
{
    let mut rows: Vec<ViewRow> = Vec::new();
    let mut k: usize = 0;
    while k < order.len()
        invariant
            k <= order.len(),
            forall|a: int| 0 <= a < order.len() ==> #[trigger] order@[a] < ps.len(),
            rows.len() == k,
            forall|a: int| 0 <= a < k ==> #[trigger] rows@[a]@ == details_row(ps@[order@[a] as int], total_memory),
        decreases order.len() - k,
    {
        rows.push(details_row_exec(&ps[order[k]], total_memory));
        k = k + 1;
    }
    proof {
        assert(rows@.map_values(|r: ViewRow| r@) =~= order@.map_values(|i: usize| details_row(ps@[i as int], total_memory)));
    }
    rows
}

fn details_columns_exec() -> (c: Vec<Column>)
    ensures
        c@.map_values(|c: Column| c@) == details_columns(),
{
    let c = vec![
        col("Name", Width::Min(20), Some(SortKey::Name), false),
        col("PID", Width::Length(8), Some(SortKey::Pid), true),
        col("Status", Width::Length(10), Some(SortKey::Status), false),
        col("User name", Width::Length(14), Some(SortKey::User), false),
        col("CPU", Width::Length(8), Some(SortKey::Cpu), true),
        col("Memory", Width::Length(11), Some(SortKey::Memory), true),
    ];
    proof {
        assert(c@.map_values(|c: Column| c@) =~= details_columns());
    }
    c
}

pub(crate) fn titled(prefix: &str, n: usize) -> (s: String)
    ensures
        s@ == prefix@ + digits(n as nat),
{
    let mut s = String::from_str(prefix);
    push_digits(&mut s, n as u128);
    s
}

/// Builds the Details tab.
pub fn details(ps: &Vec<ProcessInfo>, filter: &str, sort: SortKey, desc: bool, total_memory: u64) -> (v: View)
    ensures
        v@ == details_view(ps@, filter@, sort, desc, total_memory),
{
    let names = process_names_exec(ps);
    let idx = filter_exec(&names, filter);
    let order = sort_processes_exec(ps, &idx, sort, desc);
    let rows = rows_of_processes(ps, &order, total_memory);
    View { columns: details_columns_exec(), title: titled("Details · ", order.len()), rows }
}

// ---------------------------------------------------------------------------------------------
// Plain one-line lists: App history, Startup apps, Services

/// A row that cannot be expanded or ended, labelled by its key.
pub open spec fn plain_row(key: Seq<char>, cells: Seq<CellSpec>) -> RowSpec {
    RowSpec { key, label: key, pids: Seq::empty(), toggle: Toggle::Leaf, cells, style: RowTone::Plain }
}

pub(crate) fn plain(key: String, cells: Vec<Cell>) -> (r: ViewRow)
    ensures
        r@ == plain_row(key@, cells@.map_values(|c: Cell| c@)),
{
    let r = ViewRow { label: key.clone(), key, pids: Vec::new(), toggle: Toggle::Leaf, cells, style: RowTone::Plain };
    proof {
        assert(r@.pids =~= Seq::<u32>::empty());
    }
    r
}

/// Builds the keys of the items at `idx` (`key_of` gives one item's key).
fn keys_at<T>(items: &Vec<T>, idx: &Vec<usize>, key_of: impl Fn(&T) -> Vec<u64>, spec_key: Ghost<spec_fn(T) -> Seq<u64>>) -> (keys: Vec<Vec<u64>>)
    requires
        forall|a: int| 0 <= a < idx.len() ==> #[trigger] idx@[a] < items.len(),
        forall|t: T| #[trigger] key_of.requires((&t,)),
        forall|t: T, k: Vec<u64>| key_of.ensures((&t,), k) ==> k@ == spec_key@(t),
    ensures
        keys.len() == idx.len(),
        key_views(keys@) == idx@.map_values(|i: usize| spec_key@(items@[i as int])),
{
    let mut keys: Vec<Vec<u64>> = Vec::new();
    let mut k: usize = 0;
    while k < idx.len()
        invariant
            k <= idx.len(),
            forall|a: int| 0 <= a < idx.len() ==> #[trigger] idx@[a] < items.len(),
            forall|t: T| #[trigger] key_of.requires((&t,)),
            forall|t: T, k: Vec<u64>| key_of.ensures((&t,), k) ==> k@ == spec_key@(t),
            keys.len() == k,
            forall|a: int| 0 <= a < k ==> #[trigger] keys@[a]@ == spec_key@(items@[idx@[a] as int]),
        decreases idx.len() - k,
    {
        let kk = key_of(&items[idx[k]]);
        keys.push(kk);
        k = k + 1;
    }
    proof {
        assert(key_views(keys@) =~= idx@.map_values(|i: usize| spec_key@(items@[i as int])));
    }
    keys
}

pub open spec fn history_key(e: AppHistoryEntry, key: SortKey) -> Seq<u64> {
    match key {
        SortKey::Name => text_key(lowercase(e.name@)),
        _ => seq![e.cpu_millis],
    }
}

fn history_key_exec(e: &AppHistoryEntry, key: SortKey) -> (k: Vec<u64>)
    ensures
        k@ == history_key(*e, key),
{
    let mut k: Vec<u64> = Vec::new();
    match key {
        SortKey::Name => {
            let l = to_lower(e.name.as_str());
            push_text_key(&mut k, l.as_str());
        },
        _ => {
            k.push(e.cpu_millis);
        },
    }
    proof {
        assert(k@ =~= history_key(*e, key));
    }
    k
}

pub open spec fn history_row(e: AppHistoryEntry) -> RowSpec {
    plain_row(e.name@, seq![text_cell(e.name@), num_cell(uptime_text(e.cpu_millis as nat / 1000), Tone::Plain)])
}

pub open spec fn history_columns() -> Seq<ColumnSpec> {
    seq![
        column("Name"@, Width::Min(24), Some(SortKey::Name), false),
        column("CPU time"@, Width::Length(12), Some(SortKey::Cpu), true),
    ]
}

pub open spec fn history_names(es: Seq<AppHistoryEntry>) -> Seq<Seq<char>> {
    Seq::new(es.len(), |i: int| es[i].name@)
}

/// The App history tab: CPU time per application since launch.
pub open spec fn history_view(es: Seq<AppHistoryEntry>, filter: Seq<char>, sort: SortKey, desc: bool) -> ViewSpec {
    let idx = filtered(history_names(es), filter);
    let order = reorder(idx, idx.map_values(|i: usize| history_key(es[i as int], sort)), desc);
    ViewSpec {
        columns: history_columns(),
        rows: order.map_values(|i: usize| history_row(es[i as int])),
        title: "App history · CPU time since launch · "@ + digits(order.len()),
    }
}

/// Builds the App history tab.
pub fn app_history(es: &Vec<AppHistoryEntry>, filter: &str, sort: SortKey, desc: bool) -> (v: View)
    ensures
        v@ == history_view(es@, filter@, sort, desc),
{
    let mut names: Vec<String> = Vec::new();
    let mut i: usize = 0;
    while i < es.len()
        invariant
            i <= es.len(),
            names.len() == i,
            forall|a: int| 0 <= a < i ==> #[trigger] names@[a]@ == es@[a].name@,
        decreases es.len() - i,
    {
        names.push(es[i].name.clone());
        i = i + 1;
    }
    proof {
        assert(string_views(names@) =~= history_names(es@));
    }
    let idx = filter_exec(&names, filter);
    let keys = keys_at(es, &idx, |e: &AppHistoryEntry| -> (k: Vec<u64>)
        ensures k@ == history_key(*e, sort)
        { history_key_exec(e, sort) }, Ghost(|e: AppHistoryEntry| history_key(e, sort)));
    proof {
        assert(key_views(keys@) =~= idx@.map_values(|i: usize| history_key(es@[i as int], sort)));
    }
    let order = reorder_exec(&idx, &keys, desc);
    let mut rows: Vec<ViewRow> = Vec::new();
    let mut k: usize = 0;
    while k < order.len()
        invariant
            k <= order.len(),
            forall|a: int| 0 <= a < order.len() ==> idx@.contains(#[trigger] order@[a]),
            forall|a: int| 0 <= a < idx.len() ==> #[trigger] idx@[a] < es.len(),
            rows.len() == k,
            forall|a: int| 0 <= a < k ==> #[trigger] rows@[a]@ == history_row(es@[order@[a] as int]),
        decreases order.len() - k,
    {
        proof {
            assert(idx@.contains(order@[k as int]));
        }
        let e = &es[order[k]];
        let cells = vec![text(e.name.clone()), num(uptime(e.cpu_millis / 1000), Tone::Plain)];
        let row = plain(e.name.clone(), cells);
        proof {
            assert(row@.cells =~= history_row(*e).cells);
        }
        rows.push(row);
        k = k + 1;
    }
    proof {
        assert(rows@.map_values(|r: ViewRow| r@) =~= order@.map_values(|i: usize| history_row(es@[i as int])));
    }
    let columns = vec![
        col("Name", Width::Min(24), Some(SortKey::Name), false),
        col("CPU time", Width::Length(12), Some(SortKey::Cpu), true),
    ];
    proof {
        assert(columns@.map_values(|c: Column| c@) =~= history_columns());
    }
    View { columns, title: titled("App history · CPU time since launch · ", order.len()), rows }
}

pub open spec fn startup_key(a: StartupAppInfo, key: SortKey) -> Seq<u64> {
    match key {
        SortKey::Status => seq![if a.enabled { 1u64 } else { 0u64 }],
        _ => text_key(lowercase(a.name@)),
    }
}

fn startup_key_exec(a: &StartupAppInfo, key: SortKey) -> (k: Vec<u64>)
    ensures
        k@ == startup_key(*a, key),
{
    let mut k: Vec<u64> = Vec::new();
    match key {
        SortKey::Status => {
            k.push(if a.enabled { 1 } else { 0 });
        },
        _ => {
            let l = to_lower(a.name.as_str());
            push_text_key(&mut k, l.as_str());
        },
    }
    proof {
        assert(k@ =~= startup_key(*a, key));
    }
    k
}

pub open spec fn enabled_text(enabled: bool) -> Seq<char> {
    if enabled {
        "Enabled"@
    } else {
        "Disabled"@
    }
}

pub open spec fn startup_row(a: StartupAppInfo) -> RowSpec {
    plain_row(
        a.name@,
        seq![
            text_cell(a.name@),
            toned_cell(a.publisher@, Tone::Muted),
            toned_cell(enabled_text(a.enabled), status_tone(enabled_text(a.enabled))),
        ],
    )
}

pub open spec fn startup_columns() -> Seq<ColumnSpec> {
    seq![
        column("Name"@, Width::Min(20), Some(SortKey::Name), false),
        column("Publisher"@, Width::Fill(2), None, false),
        column("Status"@, Width::Length(10), Some(SortKey::Status), false),
    ]
}

pub open spec fn startup_names(xs: Seq<StartupAppInfo>) -> Seq<Seq<char>> {
    Seq::new(xs.len(), |i: int| xs[i].name@)
}

/// The Startup apps tab.
pub open spec fn startup_view(xs: Seq<StartupAppInfo>, filter: Seq<char>, sort: SortKey, desc: bool) -> ViewSpec {
    let idx = filtered(startup_names(xs), filter);
    let order = reorder(idx, idx.map_values(|i: usize| startup_key(xs[i as int], sort)), desc);
    ViewSpec {
        columns: startup_columns(),
        rows: order.map_values(|i: usize| startup_row(xs[i as int])),
        title: "Startup apps · "@ + digits(order.len()),
    }
}

/// Builds the Startup apps tab.
pub fn startup(xs: &Vec<StartupAppInfo>, filter: &str, sort: SortKey, desc: bool) -> (v: View)
    ensures
        v@ == startup_view(xs@, filter@, sort, desc),
{
    let mut names: Vec<String> = Vec::new();
    let mut i: usize = 0;
    while i < xs.len()
        invariant
            i <= xs.len(),
            names.len() == i,
            forall|a: int| 0 <= a < i ==> #[trigger] names@[a]@ == xs@[a].name@,
        decreases xs.len() - i,
    {
        names.push(xs[i].name.clone());
        i = i + 1;
    }
    proof {
        assert(string_views(names@) =~= startup_names(xs@));
    }
    let idx = filter_exec(&names, filter);
    let keys = keys_at(xs, &idx, |a: &StartupAppInfo| -> (k: Vec<u64>)
        ensures k@ == startup_key(*a, sort)
        { startup_key_exec(a, sort) }, Ghost(|a: StartupAppInfo| startup_key(a, sort)));
    proof {
        assert(key_views(keys@) =~= idx@.map_values(|i: usize| startup_key(xs@[i as int], sort)));
    }
    let order = reorder_exec(&idx, &keys, desc);
    let mut rows: Vec<ViewRow> = Vec::new();
    let mut k: usize = 0;
    while k < order.len()
        invariant
            k <= order.len(),
            forall|a: int| 0 <= a < order.len() ==> idx@.contains(#[trigger] order@[a]),
            forall|a: int| 0 <= a < idx.len() ==> #[trigger] idx@[a] < xs.len(),
            rows.len() == k,
            forall|a: int| 0 <= a < k ==> #[trigger] rows@[a]@ == startup_row(xs@[order@[a] as int]),
        decreases order.len() - k,
    {
        proof {
            assert(idx@.contains(order@[k as int]));
        }
        let a = &xs[order[k]];
        let status = if a.enabled {
            String::from_str("Enabled")
        } else {
            String::from_str("Disabled")
        };
        let tone = status_style(status.as_str());
        let cells = vec![text(a.name.clone()), toned(a.publisher.clone(), Tone::Muted), toned(status, tone)];
        let row = plain(a.name.clone(), cells);
        proof {
            assert(row@.cells =~= startup_row(*a).cells);
        }
        rows.push(row);
        k = k + 1;
    }
    proof {
        assert(rows@.map_values(|r: ViewRow| r@) =~= order@.map_values(|i: usize| startup_row(xs@[i as int])));
    }
    let columns = vec![
        col("Name", Width::Min(20), Some(SortKey::Name), false),
        col("Publisher", Width::Fill(2), None, false),
        col("Status", Width::Length(10), Some(SortKey::Status), false),
    ];
    proof {
        assert(columns@.map_values(|c: Column| c@) =~= startup_columns());
    }
    View { columns, title: titled("Startup apps · ", order.len()), rows }
}

pub open spec fn service_key(x: ServiceInfo, key: SortKey) -> Seq<u64> {
    match key {
        SortKey::Status => text_key(x.status@),
        _ => text_key(lowercase(x.name@)),
    }
}

fn service_key_exec(x: &ServiceInfo, key: SortKey) -> (k: Vec<u64>)
    ensures
        k@ == service_key(*x, key),
{
    let mut k: Vec<u64> = Vec::new();
    match key {
        SortKey::Status => {
            push_text_key(&mut k, x.status.as_str());
        },
        _ => {
            let l = to_lower(x.name.as_str());
            push_text_key(&mut k, l.as_str());
        },
    }
    proof {
        assert(k@ =~= service_key(*x, key));
    }
    k
}

pub open spec fn service_row(x: ServiceInfo) -> RowSpec {
    plain_row(
        x.name@,
        seq![
            text_cell(x.name@),
            toned_cell(x.description@, Tone::Muted),
            toned_cell(x.status@, status_tone(x.status@)),
        ],
    )
}

pub open spec fn service_columns() -> Seq<ColumnSpec> {
    seq![
        column("Name"@, Width::Fill(2), Some(SortKey::Name), false),
        column("Description"@, Width::Fill(3), None, false),
        column("Status"@, Width::Length(9), Some(SortKey::Status), false),
    ]
}

/// What the Services filter searches: the name, a space, and the description.
pub open spec fn service_texts(xs: Seq<ServiceInfo>) -> Seq<Seq<char>> {
    Seq::new(xs.len(), |i: int| xs[i].name@ + " "@ + xs[i].description@)
}

/// The Services tab.
pub open spec fn services_view(xs: Seq<ServiceInfo>, filter: Seq<char>, sort: SortKey, desc: bool) -> ViewSpec {
    let idx = filtered(service_texts(xs), filter);
    let order = reorder(idx, idx.map_values(|i: usize| service_key(xs[i as int], sort)), desc);
    ViewSpec {
        columns: service_columns(),
        rows: order.map_values(|i: usize| service_row(xs[i as int])),
        title: "Services · "@ + digits(order.len()),
    }
}

/// Builds the Services tab.
pub fn services(xs: &Vec<ServiceInfo>, filter: &str, sort: SortKey, desc: bool) -> (v: View)
    ensures
        v@ == services_view(xs@, filter@, sort, desc),
{
    let mut texts: Vec<String> = Vec::new();
    let mut i: usize = 0;
    while i < xs.len()
        invariant
            i <= xs.len(),
            texts.len() == i,
            forall|a: int| 0 <= a < i ==> #[trigger] texts@[a]@ == xs@[a].name@ + " "@ + xs@[a].description@,
        decreases xs.len() - i,
    {
        let mut t = xs[i].name.clone();
        push_str(&mut t, " ");
        push_str(&mut t, xs[i].description.as_str());
        texts.push(t);
        i = i + 1;
    }
    proof {
        assert(string_views(texts@) =~= service_texts(xs@));
    }
    let idx = filter_exec(&texts, filter);
    let keys = keys_at(xs, &idx, |x: &ServiceInfo| -> (k: Vec<u64>)
        ensures k@ == service_key(*x, sort)
        { service_key_exec(x, sort) }, Ghost(|x: ServiceInfo| service_key(x, sort)));
    proof {
        assert(key_views(keys@) =~= idx@.map_values(|i: usize| service_key(xs@[i as int], sort)));
    }
    let order = reorder_exec(&idx, &keys, desc);
    let mut rows: Vec<ViewRow> = Vec::new();
    let mut k: usize = 0;
    while k < order.len()
        invariant
            k <= order.len(),
            forall|a: int| 0 <= a < order.len() ==> idx@.contains(#[trigger] order@[a]),
            forall|a: int| 0 <= a < idx.len() ==> #[trigger] idx@[a] < xs.len(),
            rows.len() == k,
            forall|a: int| 0 <= a < k ==> #[trigger] rows@[a]@ == service_row(xs@[order@[a] as int]),
        decreases order.len() - k,
    {
        proof {
            assert(idx@.contains(order@[k as int]));
        }
        let x = &xs[order[k]];
        let tone = status_style(x.status.as_str());
        let cells = vec![text(x.name.clone()), toned(x.description.clone(), Tone::Muted), toned(x.status.clone(), tone)];
        let row = plain(x.name.clone(), cells);
        proof {
            assert(row@.cells =~= service_row(*x).cells);
        }
        rows.push(row);
        k = k + 1;
    }
    proof {
        assert(rows@.map_values(|r: ViewRow| r@) =~= order@.map_values(|i: usize| service_row(xs@[i as int])));
    }
    let columns = vec![
        col("Name", Width::Fill(2), Some(SortKey::Name), false),
        col("Description", Width::Fill(3), None, false),
        col("Status", Width::Length(9), Some(SortKey::Status), false),
    ];
    proof {
        assert(columns@.map_values(|c: Column| c@) =~= service_columns());
    }
    View { columns, title: titled("Services · ", order.len()), rows }
}

/// The sort keys of the sortable columns, in order.
pub fn build_columns_sorts(cols: &Vec<Column>) -> (keys: Vec<SortKey>)
    ensures
        keys@ == crate::app::column_sorts(cols@.map_values(|c: Column| c@)),
{
    let ghost cs = cols@.map_values(|c: Column| c@);
    let mut keys: Vec<SortKey> = Vec::new();
    let mut i: usize = 0;
    while i < cols.len()
        invariant
            i <= cols.len(),
            cs == cols@.map_values(|c: Column| c@),
            keys@ == crate::app::column_sorts(cs.take(i as int)),
        decreases cols.len() - i,
    {
        proof {
            assert(cs.take(i + 1).drop_last() =~= cs.take(i as int));
        }
        match cols[i].sort {
            Some(k) => keys.push(k),
            None => {},
        }
        i = i + 1;
    }
    proof {
        assert(cs.take(i as int) =~= cs);
    }
    keys
}

} // verus!
