use vstd::prelude::*;

verus! {

/// The task manager's tabs, in the order they are shown.
#[derive(Clone, Copy, PartialEq, Eq, Structural, Hash, Debug)]
pub enum Tab {
    Processes,
    Performance,
    AppHistory,
    Startup,
    Users,
    Details,
    Services,
}

/// The columns a table can be sorted by.
#[derive(Clone, Copy, PartialEq, Eq, Structural, Hash, Debug)]
pub enum SortKey {
    Name,
    Pid,
    Status,
    User,
    Cpu,
    Memory,
    Disk,
}

/// Number of tabs.
pub const TAB_COUNT: usize = 7;

/// The tab at position `i` of the tab bar.
pub open spec fn tab_at(i: int) -> Tab {
    if i == 0 {
        Tab::Processes
    } else if i == 1 {
        Tab::Performance
    } else if i == 2 {
        Tab::AppHistory
    } else if i == 3 {
        Tab::Startup
    } else if i == 4 {
        Tab::Users
    } else if i == 5 {
        Tab::Details
    } else {
        Tab::Services
    }
}

impl Tab {
    /// All tabs, in tab-bar order.
    pub const ALL: [Tab; 7] = [
        Tab::Processes,
        Tab::Performance,
        Tab::AppHistory,
        Tab::Startup,
        Tab::Users,
        Tab::Details,
        Tab::Services,
    ];

    pub open spec fn spec_label(self) -> Seq<char> {
        match self {
            Tab::Processes => "Processes"@,
            Tab::Performance => "Performance"@,
            Tab::AppHistory => "App history"@,
            Tab::Startup => "Startup apps"@,
            Tab::Users => "Users"@,
            Tab::Details => "Details"@,
            Tab::Services => "Services"@,
        }
    }

    /// The name shown in the tab bar.
    pub fn label(self) -> (s: &'static str)
        ensures
            s@ == self.spec_label(),
    {
        match self {
            Tab::Processes => "Processes",
            Tab::Performance => "Performance",
            Tab::AppHistory => "App history",
            Tab::Startup => "Startup apps",
            Tab::Users => "Users",
            Tab::Details => "Details",
            Tab::Services => "Services",
        }
    }

    pub open spec fn spec_index(self) -> int {
        match self {
            Tab::Processes => 0,
            Tab::Performance => 1,
            Tab::AppHistory => 2,
            Tab::Startup => 3,
            Tab::Users => 4,
            Tab::Details => 5,
            Tab::Services => 6,
        }
    }

    /// Position of the tab in the tab bar.
    pub fn index(self) -> (i: usize)
        ensures
            i == self.spec_index(),
            i < TAB_COUNT,
            tab_at(i as int) == self,
    {
        match self {
            Tab::Processes => 0,
            Tab::Performance => 1,
            Tab::AppHistory => 2,
            Tab::Startup => 3,
            Tab::Users => 4,
            Tab::Details => 5,
            Tab::Services => 6,
        }
    }

    /// The tab at position `i` of the tab bar.
    pub fn from_index(i: usize) -> (t: Tab)
        requires
            i < TAB_COUNT,
        ensures
            t == tab_at(i as int),
            t.spec_index() == i,
    {
        match i {
            0 => Tab::Processes,
            1 => Tab::Performance,
            2 => Tab::AppHistory,
            3 => Tab::Startup,
            4 => Tab::Users,
            5 => Tab::Details,
            _ => Tab::Services,
        }
    }

    pub open spec fn spec_default_sort(self) -> (SortKey, bool) {
        match self {
            Tab::Processes | Tab::Users | Tab::Details | Tab::AppHistory => (SortKey::Cpu, true),
            _ => (SortKey::Name, false),
        }
    }

    /// The sort column and direction a tab starts with.
    pub fn default_sort(self) -> (r: (SortKey, bool))
        ensures
            r == self.spec_default_sort(),
    {
        match self {
            Tab::Processes | Tab::Users | Tab::Details | Tab::AppHistory => (SortKey::Cpu, true),
            _ => (SortKey::Name, false),
        }
    }
}

impl SortKey {
    pub open spec fn spec_default_desc(self) -> bool {
        self == SortKey::Cpu || self == SortKey::Memory || self == SortKey::Disk
    }

    /// Text columns read naturally A→Z; numeric columns are most useful biggest-first.
    pub fn default_desc(self) -> (d: bool)
        ensures
            d == self.spec_default_desc(),
    {
        match self {
            SortKey::Cpu | SortKey::Memory | SortKey::Disk => true,
            _ => false,
        }
    }
}

/// Every tab sits at its own position: `index` and `from_index` undo each other.
pub proof fn lemma_tab_index_roundtrip(t: Tab, i: int)
    requires
        0 <= i < TAB_COUNT,
    ensures
        tab_at(t.spec_index()) == t,
        tab_at(i).spec_index() == i,
{
}

} // verus!
