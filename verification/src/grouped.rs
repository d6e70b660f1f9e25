//! The grouped tables: Processes (apps grouped by name, background processes one per row) and
//! Users (processes grouped by owner).
use crate::format::{bytes, bytes_text, digits, percent, percent_text, push_digits, rate, rate_text};
use crate::groups::{
    first_pid, group_by, group_order, group_specs, pid_sorted, sort_groups, Group, GroupBy,
    GroupSpec,
};
use crate::model::{distinct_indices, idx_sum, totals_fit, Measure, ProcessInfo};
use crate::tabs::SortKey;
use crate::text::{is_background_process, push_str, spec_is_background};
use crate::views::{
    column, filter_exec, filtered, num_cell, pid_key, pid_label, process_names, sort_processes,
    sort_processes_exec, string_views, text_cell, CellSpec, Cell, Column, ColumnSpec, RowSpec,
    RowTone, Tone, Toggle, View, ViewRow, ViewSpec, Width,
};
use crate::views::{col, cpu_heat, cpu_tone, digits_exec, disk_heat, disk_tone, mem_heat, mem_tone, titled};
use vstd::prelude::*;
use vstd::string::StringExecFns;
use vstd::view::View as _;

verus! {

/// The texts of a list of strings, as a set.
pub open spec fn set_view(v: Seq<String>) -> Set<Seq<char>> {
    Set::new(|k: Seq<char>| exists|i: int| 0 <= i < v.len() && v[i]@ == k)
}

/// Whether `k` is one of the strings of `v`.
pub fn in_set_exec(v: &Vec<String>, k: &String) -> (r: bool)
    ensures
        r == set_view(v@).contains(k@),
{
    let mut i: usize = 0;
    while i < v.len()
        invariant
            i <= v.len(),
            forall|j: int| 0 <= j < i ==> v@[j]@ != k@,
        decreases v.len() - i,
    {
        if v[i] == *k {
            proof {
                assert(set_view(v@).contains(k@));
            }
            return true;
        }
        i = i + 1;
    }
    false
}

/// The disclosure arrow: pointing down when open.
pub open spec fn arrow(open: bool) -> Seq<char> {
    if open {
        "▾"@
    } else {
        "▸"@
    }
}

fn push_arrow(s: &mut String, open: bool)
    ensures
        final(s)@ == old(s)@ + arrow(open),
{
    if open {
        push_str(s, "▾");
    } else {
        push_str(s, "▸");
    }
}

/// The rows of several row lists, one after the other.
pub open spec fn concat_rows(parts: Seq<Seq<RowSpec>>) -> Seq<RowSpec>
    decreases parts.len(),
{
    if parts.len() == 0 {
        Seq::empty()
    } else {
        concat_rows(parts.drop_last()) + parts.last()
    }
}

pub open spec fn row_views(rows: Seq<ViewRow>) -> Seq<RowSpec> {
    rows.map_values(|r: ViewRow| r@)
}

/// The load cells shared by group and process rows: CPU, memory and disk.
pub open spec fn load_cells(cpu: nat, memory: nat, disk: nat, total_memory: u64) -> Seq<CellSpec> {
    seq![
        num_cell(percent_text(cpu), cpu_tone(cpu)),
        num_cell(bytes_text(memory), mem_tone(memory, total_memory as nat)),
        num_cell(rate_text(disk), disk_tone(disk)),
    ]
}

fn load_cells_exec(cpu: u64, memory: u64, disk: u64, total_memory: u64) -> (c: Vec<Cell>)
    ensures
        c@.map_values(|c: Cell| c@) == load_cells(cpu as nat, memory as nat, disk as nat, total_memory),
{
    let c = vec![
        Cell { text: percent(cpu), right: true, tone: cpu_heat(cpu) },
        Cell { text: bytes(memory), right: true, tone: mem_heat(memory, total_memory) },
        Cell { text: rate(disk), right: true, tone: disk_heat(disk) },
    ];
    proof {
        assert(c@.map_values(|c: Cell| c@) =~= load_cells(cpu as nat, memory as nat, disk as nat, total_memory));
    }
    c
}

/// One process nested under a group row. With `pid_column` the table has a PID column
/// (Processes); otherwise the PID follows the name (Users).
pub open spec fn child_row(p: ProcessInfo, pid_column: bool, total_memory: u64) -> RowSpec {
    RowSpec {
        key: pid_key(p.pid),
        label: pid_label(p.name@, p.pid),
        pids: seq![p.pid],
        toggle: Toggle::Leaf,
        cells: (if pid_column {
            seq![text_cell("      └ "@ + p.name@), num_cell(digits(p.pid as nat), Tone::Dim)]
        } else {
            seq![text_cell("    └ "@ + p.name@ + " ("@ + digits(p.pid as nat) + ")"@)]
        }) + load_cells(p.cpu_units as nat, p.memory as nat, p.disk_bytes_per_sec as nat, total_memory),
        style: RowTone::Child,
    }
}

fn process_child_row(p: &ProcessInfo, pid_column: bool, total_memory: u64) -> (r: ViewRow)
    ensures
        r@ == child_row(*p, pid_column, total_memory),
{
    let mut cells: Vec<Cell> = Vec::new();
    if pid_column {
        let mut t = String::from_str("      └ ");
        push_str(&mut t, p.name.as_str());
        cells.push(Cell { text: t, right: false, tone: Tone::Plain });
        cells.push(Cell { text: digits_exec(p.pid as u128), right: true, tone: Tone::Dim });
    } else {
        let mut t = String::from_str("    └ ");
        push_str(&mut t, p.name.as_str());
        push_str(&mut t, " (");
        push_digits(&mut t, p.pid as u128);
        push_str(&mut t, ")");
        cells.push(Cell { text: t, right: false, tone: Tone::Plain });
    }
    let ghost first = cells@.map_values(|c: Cell| c@);
    let mut load = load_cells_exec(p.cpu_units, p.memory, p.disk_bytes_per_sec, total_memory);
    let ghost second = load@.map_values(|c: Cell| c@);
    cells.append(&mut load);
    let mut key = String::from_str("pid:");
    push_digits(&mut key, p.pid as u128);
    let mut label = String::from_str(p.name.as_str());
    push_str(&mut label, " (PID ");
    push_digits(&mut label, p.pid as u128);
    push_str(&mut label, ")");
    let mut pids: Vec<u32> = Vec::new();
    pids.push(p.pid);
    let r = ViewRow { key, label, pids, toggle: Toggle::Leaf, cells, style: RowTone::Child };
    proof {
        assert(r@.cells =~= first + second);
        assert(r@.cells =~= child_row(*p, pid_column, total_memory).cells);
        assert(r@.pids =~= seq![p.pid]);
    }
    r
}

// ---------------------------------------------------------------------------------------------
// Processes

/// The processes at `idx` that are (`want`) or are not background processes, in order.
pub open spec fn split_background(ps: Seq<ProcessInfo>, idx: Seq<usize>, want: bool) -> Seq<usize>
    decreases idx.len(),
{
    if idx.len() == 0 {
        Seq::empty()
    } else {
        let rest = split_background(ps, idx.drop_last(), want);
        if spec_is_background(ps[idx.last() as int].name@) == want {
            rest.push(idx.last())
        } else {
            rest
        }
    }
}

/// The row key of an app group: "grp:name" for several processes, "pid:N" for one.
pub open spec fn app_key(ps: Seq<ProcessInfo>, g: GroupSpec) -> Seq<char> {
    if g.members.len() > 1 {
        "grp:"@ + g.name
    } else {
        pid_key(first_pid(ps, g.members))
    }
}

/// A group of several processes that the user has expanded.
pub open spec fn app_open(ps: Seq<ProcessInfo>, g: GroupSpec, expanded: Set<Seq<char>>) -> bool {
    g.members.len() > 1 && expanded.contains(app_key(ps, g))
}

pub open spec fn app_row(ps: Seq<ProcessInfo>, g: GroupSpec, expanded: Set<Seq<char>>, total_memory: u64) -> RowSpec {
    let multi = g.members.len() > 1;
    RowSpec {
        key: app_key(ps, g),
        label: g.name,
        pids: g.members.map_values(|i: usize| ps[i as int].pid),
        toggle: if multi {
            Toggle::Expand
        } else {
            Toggle::Leaf
        },
        cells: seq![
            text_cell(
                if multi {
                    "  "@ + arrow(app_open(ps, g, expanded)) + " "@ + g.name + " ("@ + digits(g.members.len()) + ")"@
                } else {
                    "    "@ + g.name
                },
            ),
            num_cell(
                if multi {
                    Seq::empty()
                } else {
                    digits(first_pid(ps, g.members) as nat)
                },
                Tone::Dim,
            ),
        ] + load_cells(
            idx_sum(ps, g.members, Measure::Cpu),
            idx_sum(ps, g.members, Measure::Memory),
            idx_sum(ps, g.members, Measure::Disk),
            total_memory,
        ),
        style: RowTone::Plain,
    }
}

/// An app group's row, followed by its processes when expanded.
pub open spec fn app_rows(ps: Seq<ProcessInfo>, g: GroupSpec, expanded: Set<Seq<char>>, total_memory: u64) -> Seq<RowSpec> {
    seq![app_row(ps, g, expanded, total_memory)] + if app_open(ps, g, expanded) {
        g.members.map_values(|i: usize| child_row(ps[i as int], true, total_memory))
    } else {
        Seq::empty()
    }
}

pub open spec fn section_row(key: Seq<char>, label: Seq<char>, collapsed: bool, count: nat) -> RowSpec {
    RowSpec {
        key,
        label,
        pids: Seq::empty(),
        toggle: Toggle::Section,
        cells: seq![text_cell(arrow(!collapsed) + " "@ + label + " ("@ + digits(count) + ")"@)],
        style: RowTone::Section,
    }
}

/// A section: nothing when it has no groups, else its header and, unless collapsed, the rows
/// of its groups in order.
pub open spec fn section_rows(
    ps: Seq<ProcessInfo>,
    key: Seq<char>,
    label: Seq<char>,
    groups: Seq<GroupSpec>,
    expanded: Set<Seq<char>>,
    collapsed: Set<Seq<char>>,
    total_memory: u64,
) -> Seq<RowSpec> {
    if groups.len() == 0 {
        Seq::empty()
    } else {
        seq![section_row(key, label, collapsed.contains(key), groups.len())] + if collapsed.contains(key) {
            Seq::empty()
        } else {
            concat_rows(groups.map_values(|g: GroupSpec| app_rows(ps, g, expanded, total_memory)))
        }
    }
}

/// The groups in the order of a column.
pub open spec fn ordered_groups(ps: Seq<ProcessInfo>, gs: Seq<GroupSpec>, key: SortKey, desc: bool) -> Seq<GroupSpec> {
    group_order(ps, gs, key, desc).map_values(|j: usize| gs[j as int])
}

/// One group per background process.
pub open spec fn single_groups(ps: Seq<ProcessInfo>, idx: Seq<usize>) -> Seq<GroupSpec> {
    idx.map_values(|i: usize| GroupSpec { name: ps[i as int].name@, members: pid_sorted(ps, seq![i]) })
}

pub open spec fn processes_columns() -> Seq<ColumnSpec> {
    seq![
        column("Name"@, Width::Min(24), Some(SortKey::Name), false),
        column("PID"@, Width::Length(8), Some(SortKey::Pid), true),
        column("CPU"@, Width::Length(8), Some(SortKey::Cpu), true),
        column("Memory"@, Width::Length(11), Some(SortKey::Memory), true),
        column("Disk"@, Width::Length(10), Some(SortKey::Disk), true),
    ]
}

/// The Processes tab: the processes that match the filter, split into apps (grouped by name)
/// and background processes (one row each), each section sorted by the tab's column.
pub open spec fn processes_view(
    ps: Seq<ProcessInfo>,
    filter: Seq<char>,
    sort: SortKey,
    desc: bool,
    expanded: Set<Seq<char>>,
    collapsed: Set<Seq<char>>,
    total_memory: u64,
) -> ViewSpec {
    let idx = filtered(process_names(ps), filter);
    let apps = ordered_groups(ps, group_specs(ps, split_background(ps, idx, false), GroupBy::Name), sort, desc);
    let bg = ordered_groups(ps, single_groups(ps, split_background(ps, idx, true)), sort, desc);
    ViewSpec {
        columns: processes_columns(),
        rows: section_rows(ps, "sec:apps"@, "Apps"@, apps, expanded, collapsed, total_memory) + section_rows(
            ps,
            "sec:background"@,
            "Background processes"@,
            bg,
            expanded,
            collapsed,
            total_memory,
        ),
        title: "Processes · "@ + digits(idx.len()),
    }
}

proof fn lemma_concat_rows_step(f: spec_fn(int) -> Seq<RowSpec>, k: nat)
    ensures
        concat_rows(Seq::new(k + 1, f)) == concat_rows(Seq::new(k, f)) + f(k as int),
{
    assert(Seq::new(k + 1, f).drop_last() =~= Seq::new(k, f));
}

/// Appends an app group's row and, when expanded, its processes.
fn push_app_rows(rows: &mut Vec<ViewRow>, ps: &Vec<ProcessInfo>, g: &Group, expanded: &Vec<String>, total_memory: u64)
    requires
        g.totals_ok(ps@),
    ensures
        row_views(final(rows)@) == row_views(old(rows)@) + app_rows(ps@, g@, set_view(expanded@), total_memory),
{
    let multi = g.instances.len() > 1;
    let key = if multi {
        let mut k = String::from_str("grp:");
        push_str(&mut k, g.name.as_str());
        k
    } else {
        let mut k = String::from_str("pid:");
        push_digits(&mut k, g.min_pid as u128);
        k
    };
    let open = multi && in_set_exec(expanded, &key);
    let name_text = if multi {
        let mut t = String::from_str("  ");
        push_arrow(&mut t, open);
        push_str(&mut t, " ");
        push_str(&mut t, g.name.as_str());
        push_str(&mut t, " (");
        push_digits(&mut t, g.instances.len() as u128);
        push_str(&mut t, ")");
        t
    } else {
        let mut t = String::from_str("    ");
        push_str(&mut t, g.name.as_str());
        t
    };
    let pid_text = if multi {
        String::new()
    } else {
        digits_exec(g.min_pid as u128)
    };
    let mut cells: Vec<Cell> = Vec::new();
    cells.push(Cell { text: name_text, right: false, tone: Tone::Plain });
    cells.push(Cell { text: pid_text, right: true, tone: Tone::Dim });
    let ghost first = cells@.map_values(|c: Cell| c@);
    let mut load = load_cells_exec(g.cpu, g.memory, g.disk, total_memory);
    let ghost second = load@.map_values(|c: Cell| c@);
    cells.append(&mut load);
    let row = ViewRow {
        key,
        label: g.name.clone(),
        pids: g.pids(ps),
        toggle: if multi {
            Toggle::Expand
        } else {
            Toggle::Leaf
        },
        cells,
        style: RowTone::Plain,
    };
    proof {
        assert(row@.cells =~= first + second);
        assert(row@.cells =~= app_row(ps@, g@, set_view(expanded@), total_memory).cells);
        assert(row@ == app_row(ps@, g@, set_view(expanded@), total_memory));
    }
    let ghost before = row_views(rows@);
    rows.push(row);
    proof {
        assert(row_views(rows@) =~= before + seq![app_row(ps@, g@, set_view(expanded@), total_memory)]);
    }
    if open {
        let mut k: usize = 0;
        let ghost mid = row_views(rows@);
        while k < g.instances.len()
            invariant
                k <= g.instances.len(),
                g.totals_ok(ps@),
                row_views(rows@) =~= mid + g.instances@.take(k as int).map_values(|i: usize| child_row(ps@[i as int], true, total_memory)),
            decreases g.instances.len() - k,
        {
            let r = process_child_row(&ps[g.instances[k]], true, total_memory);
            let ghost prev = row_views(rows@);
            rows.push(r);
            proof {
                assert(row_views(rows@) =~= prev.push(child_row(ps@[g.instances@[k as int] as int], true, total_memory)));
            }
            k = k + 1;
            proof {
                assert(g.instances@.take(k as int) =~= g.instances@.take(k - 1).push(g.instances@[k - 1]));
            }
        }
        proof {
            assert(g.instances@.take(k as int) =~= g.instances@);
        }
    }
}

/// The groups at the positions `order`.
pub open spec fn pick(groups: Seq<Group>, order: Seq<usize>) -> Seq<GroupSpec> {
    order.map_values(|j: usize| groups[j as int]@)
}

/// Appends a section: its header and, unless collapsed, its groups in `order`.
fn push_section(
    rows: &mut Vec<ViewRow>,
    ps: &Vec<ProcessInfo>,
    key: &str,
    label: &str,
    groups: &Vec<Group>,
    order: &Vec<usize>,
    expanded: &Vec<String>,
    collapsed: &Vec<String>,
    total_memory: u64,
)
    requires
        forall|g: int| 0 <= g < groups.len() ==> (#[trigger] groups@[g]).totals_ok(ps@),
        forall|a: int| 0 <= a < order.len() ==> #[trigger] order@[a] < groups.len(),
    ensures
        row_views(final(rows)@) == row_views(old(rows)@) + section_rows(
            ps@,
            key@,
            label@,
            pick(groups@, order@),
            set_view(expanded@),
            set_view(collapsed@),
            total_memory,
        ),
{
    let ghost gs = pick(groups@, order@);
    if order.len() == 0 {
        proof {
            assert(row_views(rows@) =~= row_views(old(rows)@) + Seq::<RowSpec>::empty());
        }
        return;
    }
    let key_s = String::from_str(key);
    let is_collapsed = in_set_exec(collapsed, &key_s);
    let mut t = String::new();
    push_arrow(&mut t, !is_collapsed);
    push_str(&mut t, " ");
    push_str(&mut t, label);
    push_str(&mut t, " (");
    push_digits(&mut t, order.len() as u128);
    push_str(&mut t, ")");
    let cells = vec![Cell { text: t, right: false, tone: Tone::Plain }];
    let header = ViewRow {
        key: key_s,
        label: String::from_str(label),
        pids: Vec::new(),
        toggle: Toggle::Section,
        cells,
        style: RowTone::Section,
    };
    proof {
        assert(header@.cells =~= section_row(key@, label@, is_collapsed, gs.len()).cells);
        assert(header@.pids =~= Seq::<u32>::empty());
    }
    let ghost before = row_views(rows@);
    rows.push(header);
    proof {
        assert(row_views(rows@) =~= before + seq![section_row(key@, label@, is_collapsed, gs.len())]);
    }
    if is_collapsed {
        proof {
            assert(row_views(rows@) =~= row_views(old(rows)@) + section_rows(ps@, key@, label@, gs, set_view(expanded@), set_view(collapsed@), total_memory));
        }
        return;
    }
    let ghost mid = row_views(rows@);
    let ghost f = |j: int| app_rows(ps@, gs[j], set_view(expanded@), total_memory);
    let mut k: usize = 0;
    proof {
        assert(concat_rows(Seq::new(0, f)) =~= Seq::<RowSpec>::empty());
        assert(row_views(rows@) =~= mid + concat_rows(Seq::new(0, f)));
    }
    while k < order.len()
        invariant
            k <= order.len(),
            forall|g: int| 0 <= g < groups.len() ==> (#[trigger] groups@[g]).totals_ok(ps@),
            forall|a: int| 0 <= a < order.len() ==> #[trigger] order@[a] < groups.len(),
            gs == pick(groups@, order@),
            f == (|j: int| app_rows(ps@, gs[j], set_view(expanded@), total_memory)),
            row_views(rows@) == mid + concat_rows(Seq::new(k as nat, f)),
        decreases order.len() - k,
    {
        let g = &groups[order[k]];
        push_app_rows(rows, ps, g, expanded, total_memory);
        proof {
            lemma_concat_rows_step(f, k as nat);
            assert(row_views(rows@) =~= mid + concat_rows(Seq::new((k + 1) as nat, f)));
        }
        k = k + 1;
    }
    proof {
        assert(Seq::new(k as nat, f) =~= gs.map_values(|g: GroupSpec| app_rows(ps@, g, set_view(expanded@), total_memory)));
        assert(row_views(rows@) =~= row_views(old(rows)@) + section_rows(ps@, key@, label@, gs, set_view(expanded@), set_view(collapsed@), total_memory));
    }
}

fn split_exec(ps: &Vec<ProcessInfo>, idx: &Vec<usize>) -> (r: (Vec<usize>, Vec<usize>))
    requires
        forall|a: int| 0 <= a < idx.len() ==> #[trigger] idx@[a] < ps.len(),
        forall|a: int, b: int| 0 <= a < b < idx.len() ==> idx@[a] < idx@[b],
    ensures
        r.0@ == split_background(ps@, idx@, true),
        r.1@ == split_background(ps@, idx@, false),
        distinct_indices(r.0@, ps@.len()),
        distinct_indices(r.1@, ps@.len()),
{
    let mut bg: Vec<usize> = Vec::new();
    let mut fg: Vec<usize> = Vec::new();
    let mut k: usize = 0;
    while k < idx.len()
        invariant
            k <= idx.len(),
            forall|a: int| 0 <= a < idx.len() ==> #[trigger] idx@[a] < ps.len(),
            forall|a: int, b: int| 0 <= a < b < idx.len() ==> idx@[a] < idx@[b],
            bg@ == split_background(ps@, idx@.take(k as int), true),
            fg@ == split_background(ps@, idx@.take(k as int), false),
            forall|a: int| 0 <= a < bg.len() ==> #[trigger] bg@[a] < ps.len(),
            forall|a: int| 0 <= a < fg.len() ==> #[trigger] fg@[a] < ps.len(),
            forall|a: int, b: int| 0 <= a < b < bg.len() ==> bg@[a] < bg@[b],
            forall|a: int, b: int| 0 <= a < b < fg.len() ==> fg@[a] < fg@[b],
            k > 0 ==> forall|a: int| 0 <= a < bg.len() ==> #[trigger] bg@[a] <= idx@[k - 1],
            k > 0 ==> forall|a: int| 0 <= a < fg.len() ==> #[trigger] fg@[a] <= idx@[k - 1],
        decreases idx.len() - k,
    {
        let i = idx[k];
        proof {
            assert(idx@.take(k + 1).drop_last() =~= idx@.take(k as int));
            assert(idx@.take(k + 1).last() == i);
        }
        if is_background_process(ps[i].name.as_str()) {
            bg.push(i);
        } else {
            fg.push(i);
        }
        k = k + 1;
    }
    proof {
        assert(idx@.take(k as int) =~= idx@);
    }
    (bg, fg)
}

fn processes_columns_exec() -> (c: Vec<Column>)
    ensures
        c@.map_values(|c: Column| c@) == processes_columns(),
{
    let c = vec![
        col("Name", Width::Min(24), Some(SortKey::Name), false),
        col("PID", Width::Length(8), Some(SortKey::Pid), true),
        col("CPU", Width::Length(8), Some(SortKey::Cpu), true),
        col("Memory", Width::Length(11), Some(SortKey::Memory), true),
        col("Disk", Width::Length(10), Some(SortKey::Disk), true),
    ];
    proof {
        assert(c@.map_values(|c: Column| c@) =~= processes_columns());
    }
    c
}

fn names_exec(ps: &Vec<ProcessInfo>) -> (r: Vec<String>)
    ensures
        string_views(r@) == process_names(ps@),
{
    let mut r: Vec<String> = Vec::new();
    let mut i: usize = 0;
    while i < ps.len()
        invariant
            i <= ps.len(),
            r.len() == i,
            forall|a: int| 0 <= a < i ==> #[trigger] r@[a]@ == ps@[a].name@,
        decreases ps.len() - i,
    {
        r.push(ps[i].name.clone());
        i = i + 1;
    }
    proof {
        assert(string_views(r@) =~= process_names(ps@));
    }
    r
}

/// Builds the Processes tab.
pub fn processes(
    ps: &Vec<ProcessInfo>,
    filter: &str,
    sort: SortKey,
    desc: bool,
    expanded: &Vec<String>,
    collapsed: &Vec<String>,
    total_memory: u64,
) -> (v: View)
    requires
        totals_fit(ps@),
    ensures
        v@ == processes_view(ps@, filter@, sort, desc, set_view(expanded@), set_view(collapsed@), total_memory),
{
    let names = names_exec(ps);
    let idx = filter_exec(&names, filter);
    let (bg, fg) = split_exec(ps, &idx);
    let apps = group_by(ps, &fg, GroupBy::Name);
    let apps_order = sort_groups(ps, &apps, sort, desc);
    let mut singles: Vec<Group> = Vec::new();
    let mut k: usize = 0;
    while k < bg.len()
        invariant
            k <= bg.len(),
            totals_fit(ps@),
            distinct_indices(bg@, ps@.len()),
            singles.len() == k,
            forall|a: int| 0 <= a < k ==> (#[trigger] singles@[a])@ == (GroupSpec {
                name: ps@[bg@[a] as int].name@,
                members: pid_sorted(ps@, seq![bg@[a]]),
            }),
            forall|a: int| 0 <= a < k ==> (#[trigger] singles@[a]).totals_ok(ps@),
        decreases bg.len() - k,
    {
        let i = bg[k];
        let mut one: Vec<usize> = Vec::new();
        one.push(i);
        proof {
            assert(one@ =~= seq![i]);
        }
        let grp = Group::new(ps, ps[i].name.clone(), one);
        singles.push(grp);
        k = k + 1;
    }
    let bg_order = sort_groups(ps, &singles, sort, desc);
    proof {
        assert(singles@.map_values(|g: Group| g@) =~= single_groups(ps@, bg@));
        assert(pick(apps@, apps_order@) =~= ordered_groups(ps@, group_specs(ps@, fg@, GroupBy::Name), sort, desc));
        assert(pick(singles@, bg_order@) =~= ordered_groups(ps@, single_groups(ps@, bg@), sort, desc));
    }
    let mut rows: Vec<ViewRow> = Vec::new();
    push_section(&mut rows, ps, "sec:apps", "Apps", &apps, &apps_order, expanded, collapsed, total_memory);
    push_section(&mut rows, ps, "sec:background", "Background processes", &singles, &bg_order, expanded, collapsed, total_memory);
    let v = View { columns: processes_columns_exec(), title: titled("Processes · ", idx.len()), rows };
    proof {
        assert(row_views(v.rows@) =~= processes_view(ps@, filter@, sort, desc, set_view(expanded@), set_view(collapsed@), total_memory).rows);
    }
    v
}

// ---------------------------------------------------------------------------------------------
// Users

/// "user:name": the row key of a user.
pub open spec fn user_key(g: GroupSpec) -> Seq<char> {
    "user:"@ + g.name
}

pub open spec fn user_open(g: GroupSpec, expanded: Set<Seq<char>>) -> bool {
    expanded.contains(user_key(g))
}

pub open spec fn user_row(ps: Seq<ProcessInfo>, g: GroupSpec, expanded: Set<Seq<char>>, total_memory: u64) -> RowSpec {
    RowSpec {
        key: user_key(g),
        label: g.name,
        pids: Seq::empty(),
        toggle: Toggle::Expand,
        cells: seq![text_cell(arrow(user_open(g, expanded)) + " "@ + g.name + " ("@ + digits(g.members.len()) + ")"@)]
            + load_cells(
            idx_sum(ps, g.members, Measure::Cpu),
            idx_sum(ps, g.members, Measure::Memory),
            idx_sum(ps, g.members, Measure::Disk),
            total_memory,
        ),
        style: RowTone::Group,
    }
}

/// A user's row, followed, when expanded, by the user's processes sorted by the tab's column.
pub open spec fn user_rows(
    ps: Seq<ProcessInfo>,
    g: GroupSpec,
    sort: SortKey,
    desc: bool,
    expanded: Set<Seq<char>>,
    total_memory: u64,
) -> Seq<RowSpec> {
    seq![user_row(ps, g, expanded, total_memory)] + if user_open(g, expanded) {
        sort_processes(ps, g.members, sort, desc).map_values(|i: usize| child_row(ps[i as int], false, total_memory))
    } else {
        Seq::empty()
    }
}

pub open spec fn users_columns() -> Seq<ColumnSpec> {
    seq![
        column("User"@, Width::Min(24), Some(SortKey::Name), false),
        column("CPU"@, Width::Length(8), Some(SortKey::Cpu), true),
        column("Memory"@, Width::Length(11), Some(SortKey::Memory), true),
        column("Disk"@, Width::Length(10), Some(SortKey::Disk), true),
    ]
}

/// The Users tab: the processes that match the filter grouped by owner, the groups sorted by
/// the tab's column.
pub open spec fn users_view(
    ps: Seq<ProcessInfo>,
    filter: Seq<char>,
    sort: SortKey,
    desc: bool,
    expanded: Set<Seq<char>>,
    total_memory: u64,
) -> ViewSpec {
    let groups = ordered_groups(
        ps,
        group_specs(ps, filtered(process_names(ps), filter), GroupBy::User),
        sort,
        desc,
    );
    ViewSpec {
        columns: users_columns(),
        rows: concat_rows(groups.map_values(|g: GroupSpec| user_rows(ps, g, sort, desc, expanded, total_memory))),
        title: "Users · "@ + digits(groups.len()),
    }
}

fn push_user_rows(
    rows: &mut Vec<ViewRow>,
    ps: &Vec<ProcessInfo>,
    g: &Group,
    sort: SortKey,
    desc: bool,
    expanded: &Vec<String>,
    total_memory: u64,
)
    requires
        g.totals_ok(ps@),
    ensures
        row_views(final(rows)@) == row_views(old(rows)@) + user_rows(ps@, g@, sort, desc, set_view(expanded@), total_memory),
{
    let mut key = String::from_str("user:");
    push_str(&mut key, g.name.as_str());
    let open = in_set_exec(expanded, &key);
    let mut t = String::new();
    push_arrow(&mut t, open);
    push_str(&mut t, " ");
    push_str(&mut t, g.name.as_str());
    push_str(&mut t, " (");
    push_digits(&mut t, g.instances.len() as u128);
    push_str(&mut t, ")");
    let mut cells: Vec<Cell> = Vec::new();
    cells.push(Cell { text: t, right: false, tone: Tone::Plain });
    let ghost first = cells@.map_values(|c: Cell| c@);
    let mut load = load_cells_exec(g.cpu, g.memory, g.disk, total_memory);
    let ghost second = load@.map_values(|c: Cell| c@);
    cells.append(&mut load);
    let row = ViewRow { key, label: g.name.clone(), pids: Vec::new(), toggle: Toggle::Expand, cells, style: RowTone::Group };
    proof {
        assert(row@.cells =~= first + second);
        assert(row@.cells =~= user_row(ps@, g@, set_view(expanded@), total_memory).cells);
        assert(row@.pids =~= Seq::<u32>::empty());
        assert(row@ == user_row(ps@, g@, set_view(expanded@), total_memory));
    }
    let ghost before = row_views(rows@);
    rows.push(row);
    proof {
        assert(row_views(rows@) =~= before + seq![user_row(ps@, g@, set_view(expanded@), total_memory)]);
    }
    if open {
        let children = sort_processes_exec(ps, &g.instances, sort, desc);
        let ghost mid = row_views(rows@);
        let mut k: usize = 0;
        while k < children.len()
            invariant
                k <= children.len(),
                forall|a: int| 0 <= a < children.len() ==> #[trigger] children@[a] < ps.len(),
                row_views(rows@) =~= mid + children@.take(k as int).map_values(|i: usize| child_row(ps@[i as int], false, total_memory)),
            decreases children.len() - k,
        {
            let r = process_child_row(&ps[children[k]], false, total_memory);
            let ghost prev = row_views(rows@);
            rows.push(r);
            proof {
                assert(row_views(rows@) =~= prev.push(child_row(ps@[children@[k as int] as int], false, total_memory)));
            }
            k = k + 1;
            proof {
                assert(children@.take(k as int) =~= children@.take(k - 1).push(children@[k - 1]));
            }
        }
        proof {
            assert(children@.take(k as int) =~= children@);
        }
    }
}

/// Builds the Users tab.
pub fn users(
    ps: &Vec<ProcessInfo>,
    filter: &str,
    sort: SortKey,
    desc: bool,
    expanded: &Vec<String>,
    total_memory: u64,
) -> (v: View)
    requires
        totals_fit(ps@),
    ensures
        v@ == users_view(ps@, filter@, sort, desc, set_view(expanded@), total_memory),
{
    let names = names_exec(ps);
    let idx = filter_exec(&names, filter);
    let groups = group_by(ps, &idx, GroupBy::User);
    let order = sort_groups(ps, &groups, sort, desc);
    let ghost gs = pick(groups@, order@);
    proof {
        assert(gs =~= ordered_groups(ps@, group_specs(ps@, idx@, GroupBy::User), sort, desc));
    }
    let ghost f = |j: int| user_rows(ps@, gs[j], sort, desc, set_view(expanded@), total_memory);
    let mut rows: Vec<ViewRow> = Vec::new();
    let mut k: usize = 0;
    proof {
        assert(row_views(rows@) =~= concat_rows(Seq::new(0, f)));
    }
    while k < order.len()
        invariant
            k <= order.len(),
            forall|g: int| 0 <= g < groups.len() ==> (#[trigger] groups@[g]).totals_ok(ps@),
            forall|a: int| 0 <= a < order.len() ==> #[trigger] order@[a] < groups.len(),
            gs == pick(groups@, order@),
            f == (|j: int| user_rows(ps@, gs[j], sort, desc, set_view(expanded@), total_memory)),
            row_views(rows@) == concat_rows(Seq::new(k as nat, f)),
        decreases order.len() - k,
    {
        push_user_rows(&mut rows, ps, &groups[order[k]], sort, desc, expanded, total_memory);
        proof {
            lemma_concat_rows_step(f, k as nat);
        }
        k = k + 1;
    }
    let columns = vec![
        col("User", Width::Min(24), Some(SortKey::Name), false),
        col("CPU", Width::Length(8), Some(SortKey::Cpu), true),
        col("Memory", Width::Length(11), Some(SortKey::Memory), true),
        col("Disk", Width::Length(10), Some(SortKey::Disk), true),
    ];
    proof {
        assert(columns@.map_values(|c: Column| c@) =~= users_columns());
        assert(Seq::new(k as nat, f) =~= gs.map_values(|g: GroupSpec| user_rows(ps@, g, sort, desc, set_view(expanded@), total_memory)));
    }
    View { columns, title: titled("Users · ", order.len()), rows }
}

} // verus!
