//! The benchmark scenarios.

use vstd::prelude::*;
use vstd::string::*;

use crate::text::{self, chars_of, is_text, parse_number, skip_chars};

verus! {

/// One benchmark scenario.
#[derive(Debug, Clone, Copy, PartialEq, Eq, Structural)]
pub enum Scenario {
    /// First launch of a freshly started process.
    ColdStartup,
    /// A launch immediately after another one.
    WarmStartup,
    /// Time from process start to the end of the first page load.
    FirstPageLoad,
    /// Navigation away from the initial page.
    Navigation,
    TabCreate,
    TabSwitch,
    /// CPU used by a busy tab in the background.
    BackgroundCpu,
    /// Cost of creating one more tab with that many open.
    TabCreateAt(u32),
    /// Cost of switching between that many open tabs.
    TabSwitchAt(u32),
    /// Cost of coming back to a suspended tab.
    TabResume,
    /// Memory with exactly that many tabs open.
    TabCountMemory(u32),
    /// Memory with that many tabs open, once the browser has settled.
    TabCountMemoryHold(u32),
}

/// The numbers of tabs that the scenarios with a number come with.
pub open spec fn is_tab_count(n: u32) -> bool {
    n == 1 || n == 5 || n == 10 || n == 20 || n == 50
}

/// The fixed part of a scenario's identifier, and the number after it.
pub open spec fn id_parts(s: Scenario) -> (Seq<char>, Option<u32>) {
    match s {
        Scenario::ColdStartup => ("cold_startup"@, None),
        Scenario::WarmStartup => ("warm_startup"@, None),
        Scenario::FirstPageLoad => ("first_page_load"@, None),
        Scenario::Navigation => ("navigation"@, None),
        Scenario::TabCreate => ("tab_create"@, None),
        Scenario::TabSwitch => ("tab_switch"@, None),
        Scenario::TabResume => ("tab_resume"@, None),
        Scenario::BackgroundCpu => ("background_cpu"@, None),
        Scenario::TabCreateAt(n) => ("tab_create_"@, Some(n)),
        Scenario::TabSwitchAt(n) => ("tab_switch_"@, Some(n)),
        Scenario::TabCountMemory(n) => ("tabs_"@, Some(n)),
        Scenario::TabCountMemoryHold(n) => ("tabs_hold_"@, Some(n)),
    }
}

/// The identifier of a scenario.
pub open spec fn id_text(s: Scenario) -> Seq<char> {
    match id_parts(s) {
        (name, None) => name,
        (prefix, Some(n)) => prefix + text::decimal(n as nat),
    }
}

/// The scenario that a fixed identifier names.
pub open spec fn fixed_scenario(id: Seq<char>) -> Option<Scenario> {
    if id == "cold_startup"@ {
        Some(Scenario::ColdStartup)
    } else if id == "warm_startup"@ {
        Some(Scenario::WarmStartup)
    } else if id == "first_page_load"@ {
        Some(Scenario::FirstPageLoad)
    } else if id == "navigation"@ {
        Some(Scenario::Navigation)
    } else if id == "tab_create"@ {
        Some(Scenario::TabCreate)
    } else if id == "tab_switch"@ {
        Some(Scenario::TabSwitch)
    } else if id == "tab_resume"@ {
        Some(Scenario::TabResume)
    } else if id == "background_cpu"@ {
        Some(Scenario::BackgroundCpu)
    } else {
        None
    }
}

/// The number of tabs at the end of an identifier whose fixed part is `prefix`.
pub open spec fn counted(id: Seq<char>, prefix: Seq<char>) -> Option<u32> {
    match text::parsed_number(id.skip(prefix.len() as int), u32::MAX as nat) {
        Some(n) => if is_tab_count(n as u32) {
            Some(n as u32)
        } else {
            None
        },
        None => None,
    }
}

/// The scenario that an identifier with a number names. `tabs_hold_` is looked
/// for before `tabs_`, which it starts with.
pub open spec fn counted_scenario(id: Seq<char>) -> Option<Scenario> {
    if "tabs_hold_"@.is_prefix_of(id) {
        match counted(id, "tabs_hold_"@) {
            Some(n) => Some(Scenario::TabCountMemoryHold(n)),
            None => None,
        }
    } else if "tabs_"@.is_prefix_of(id) {
        match counted(id, "tabs_"@) {
            Some(n) => Some(Scenario::TabCountMemory(n)),
            None => None,
        }
    } else if "tab_create_"@.is_prefix_of(id) {
        match counted(id, "tab_create_"@) {
            Some(n) => Some(Scenario::TabCreateAt(n)),
            None => None,
        }
    } else if "tab_switch_"@.is_prefix_of(id) {
        match counted(id, "tab_switch_"@) {
            Some(n) => Some(Scenario::TabSwitchAt(n)),
            None => None,
        }
    } else {
        None
    }
}

/// The scenario that an identifier names.
pub open spec fn scenario_named(id: Seq<char>) -> Option<Scenario> {
    match fixed_scenario(id) {
        Some(s) => Some(s),
        None => counted_scenario(id),
    }
}

fn tab_count_after(id: &[char], prefix: &str) -> (r: Option<u32>)
    requires
        prefix@.is_prefix_of(id@),
    ensures
        r == counted(id@, prefix@),
{
    let rest = skip_chars(id, chars_of(prefix).len());
    match parse_number(rest, u32::MAX as u64) {
        Some(n) => {
            let n: u32 = n as u32;
            if n == 1 || n == 5 || n == 10 || n == 20 || n == 50 {
                Some(n)
            } else {
                None
            }
        },
        None => None,
    }
}

/// The scenarios without a number.
pub open spec fn fixed_catalog() -> Seq<Scenario> {
    seq![
        Scenario::ColdStartup,
        Scenario::WarmStartup,
        Scenario::FirstPageLoad,
        Scenario::Navigation,
        Scenario::TabCreate,
        Scenario::TabSwitch,
        Scenario::TabResume,
        Scenario::BackgroundCpu,
    ]
}

/// The numbers of tabs, in order.
pub open spec fn tab_counts() -> Seq<u32> {
    seq![1u32, 5u32, 10u32, 20u32, 50u32]
}

/// All scenarios, in order.
pub open spec fn catalog() -> Seq<Scenario> {
    fixed_catalog() + tab_counts().map_values(|n: u32| Scenario::TabCountMemory(n))
        + tab_counts().map_values(|n: u32| Scenario::TabCountMemoryHold(n))
        + tab_counts().map_values(|n: u32| Scenario::TabCreateAt(n)) + tab_counts().map_values(
        |n: u32| Scenario::TabSwitchAt(n),
    )
}

impl Scenario {
    /// The numbers of tabs that the scenarios with a number come with.
    pub const TAB_COUNTS: [u32; 5] = [1, 5, 10, 20, 50];

    /// Whether the scenario is one of the catalog: its number of tabs, if it has
    /// one, is one of those that it comes with.
    pub open spec fn is_listed(self) -> bool {
        id_parts(self).1 matches Some(n) ==> is_tab_count(n)
    }

    /// All scenarios.
    pub fn all() -> (r: Vec<Scenario>)
        ensures
            r@ == catalog(),
    {
        let r = vec![
            Scenario::ColdStartup,
            Scenario::WarmStartup,
            Scenario::FirstPageLoad,
            Scenario::Navigation,
            Scenario::TabCreate,
            Scenario::TabSwitch,
            Scenario::TabResume,
            Scenario::BackgroundCpu,
            Scenario::TabCountMemory(1),
            Scenario::TabCountMemory(5),
            Scenario::TabCountMemory(10),
            Scenario::TabCountMemory(20),
            Scenario::TabCountMemory(50),
            Scenario::TabCountMemoryHold(1),
            Scenario::TabCountMemoryHold(5),
            Scenario::TabCountMemoryHold(10),
            Scenario::TabCountMemoryHold(20),
            Scenario::TabCountMemoryHold(50),
            Scenario::TabCreateAt(1),
            Scenario::TabCreateAt(5),
            Scenario::TabCreateAt(10),
            Scenario::TabCreateAt(20),
            Scenario::TabCreateAt(50),
            Scenario::TabSwitchAt(1),
            Scenario::TabSwitchAt(5),
            Scenario::TabSwitchAt(10),
            Scenario::TabSwitchAt(20),
            Scenario::TabSwitchAt(50),
        ];
        assert(r@ =~= catalog());
        r
    }

    /// The stable identifier, as it stands in file names and on the command
    /// line.
    pub fn id(self) -> (r: String)
        ensures
            r@ == id_text(self),
    {
        match self {
            Scenario::ColdStartup => "cold_startup".to_owned(),
            Scenario::WarmStartup => "warm_startup".to_owned(),
            Scenario::FirstPageLoad => "first_page_load".to_owned(),
            Scenario::Navigation => "navigation".to_owned(),
            Scenario::TabCreate => "tab_create".to_owned(),
            Scenario::TabSwitch => "tab_switch".to_owned(),
            Scenario::TabResume => "tab_resume".to_owned(),
            Scenario::BackgroundCpu => "background_cpu".to_owned(),
            Scenario::TabCreateAt(n) => counted_id("tab_create_", n),
            Scenario::TabSwitchAt(n) => counted_id("tab_switch_", n),
            Scenario::TabCountMemory(n) => counted_id("tabs_", n),
            Scenario::TabCountMemoryHold(n) => counted_id("tabs_hold_", n),
        }
    }

    /// The scenario that an identifier names.
    pub fn parse(id: &str) -> (r: Option<Scenario>)
        ensures
            r == scenario_named(id@),
    {
        let id = chars_of(id);
        if is_text(&id, "cold_startup") {
            Some(Scenario::ColdStartup)
        } else if is_text(&id, "warm_startup") {
            Some(Scenario::WarmStartup)
        } else if is_text(&id, "first_page_load") {
            Some(Scenario::FirstPageLoad)
        } else if is_text(&id, "navigation") {
            Some(Scenario::Navigation)
        } else if is_text(&id, "tab_create") {
            Some(Scenario::TabCreate)
        } else if is_text(&id, "tab_switch") {
            Some(Scenario::TabSwitch)
        } else if is_text(&id, "tab_resume") {
            Some(Scenario::TabResume)
        } else if is_text(&id, "background_cpu") {
            Some(Scenario::BackgroundCpu)
        } else {
            Self::parse_parameterized(&id)
        }
    }

    fn parse_parameterized(id: &[char]) -> (r: Option<Scenario>)
        ensures
            r == counted_scenario(id@),
    {
        if text::has_prefix(id, "tabs_hold_") {
            match tab_count_after(id, "tabs_hold_") {
                Some(n) => Some(Scenario::TabCountMemoryHold(n)),
                None => None,
            }
        } else if text::has_prefix(id, "tabs_") {
            match tab_count_after(id, "tabs_") {
                Some(n) => Some(Scenario::TabCountMemory(n)),
                None => None,
            }
        } else if text::has_prefix(id, "tab_create_") {
            match tab_count_after(id, "tab_create_") {
                Some(n) => Some(Scenario::TabCreateAt(n)),
                None => None,
            }
        } else if text::has_prefix(id, "tab_switch_") {
            match tab_count_after(id, "tab_switch_") {
                Some(n) => Some(Scenario::TabSwitchAt(n)),
                None => None,
            }
        } else {
            None
        }
    }

    /// Whether the scenario runs without a human: every one does.
    pub fn is_unattended(self) -> (r: bool)
        ensures
            r,
    {
        match self {
            Scenario::ColdStartup
            | Scenario::WarmStartup
            | Scenario::FirstPageLoad
            | Scenario::Navigation
            | Scenario::TabCreate
            | Scenario::TabSwitch
            | Scenario::TabResume
            | Scenario::BackgroundCpu
            | Scenario::TabCreateAt(_)
            | Scenario::TabSwitchAt(_)
            | Scenario::TabCountMemory(_)
            | Scenario::TabCountMemoryHold(_) => true,
        }
    }
}

fn counted_id(prefix: &str, n: u32) -> (r: String)
    ensures
        r@ == prefix@ + text::decimal(n as nat),
{
    let mut r = prefix.to_owned();
    r.append(&text::decimal_of(n as u128));
    r
}

// ---------------------------------------------------------------------------
// Laws

/// Parsing the identifier of a scenario of the catalog gives the scenario.
pub proof fn an_id_reads_back(s: Scenario)
    requires
        s.is_listed(),
    ensures
        scenario_named(id_text(s)) == Some(s),
{
    reveal_strlit("cold_startup");
    reveal_strlit("warm_startup");
    reveal_strlit("first_page_load");
    reveal_strlit("navigation");
    reveal_strlit("tab_create");
    reveal_strlit("tab_switch");
    reveal_strlit("tab_resume");
    reveal_strlit("background_cpu");
    reveal_strlit("tab_create_");
    reveal_strlit("tab_switch_");
    reveal_strlit("tabs_");
    reveal_strlit("tabs_hold_");
    let id = id_text(s);
    match id_parts(s) {
        (_, None) => {
            lemma_fixed_id(s);
        },
        (prefix, Some(n)) => {
            text::decimal_reads_back(n as nat, u32::MAX as nat);
            text::lemma_decimal_digits(n as nat);
            let digits = text::decimal(n as nat);
            assert(id.skip(prefix.len() as int) =~= digits);
            assert(prefix.is_prefix_of(id)) by {
                assert(id.take(prefix.len() as int) =~= prefix);
            }
            assert(text::is_digit(digits[0]));
            assert(id[prefix.len() as int] == digits[0]);
            assert(counted(id, prefix) == Some(n));
            assert(fixed_scenario(id) is None) by {
                assert(text::is_digit(id[prefix.len() as int]));
                lemma_not_fixed(id, prefix);
            }
            lemma_family(id, prefix);
        },
    }
}

proof fn lemma_fixed_id(s: Scenario)
    requires
        id_parts(s).1 is None,
    ensures
        fixed_scenario(id_text(s)) == Some(s),
{
    reveal_strlit("cold_startup");
    reveal_strlit("warm_startup");
    reveal_strlit("first_page_load");
    reveal_strlit("navigation");
    reveal_strlit("tab_create");
    reveal_strlit("tab_switch");
    reveal_strlit("tab_resume");
    reveal_strlit("background_cpu");
    assert("tab_create"@[4] == 'c' && "tab_switch"@[4] == 's' && "tab_resume"@[4] == 'r');
    assert("cold_startup"@[0] == 'c' && "warm_startup"@[0] == 'w');
    assert("navigation"@[0] == 'n' && "tab_create"@[0] == 't' && "tab_switch"@[0] == 't'
        && "tab_resume"@[0] == 't');
    assert("cold_startup"@.len() == 12 && "warm_startup"@.len() == 12 && "first_page_load"@.len()
        == 15 && "navigation"@.len() == 10 && "tab_create"@.len() == 10 && "tab_switch"@.len() == 10
        && "tab_resume"@.len() == 10 && "background_cpu"@.len() == 14);
    assert(id_text(s) == id_parts(s).0);
}

/// An identifier with a digit where the fixed part of a family ends is none of
/// the fixed identifiers.
proof fn lemma_not_fixed(id: Seq<char>, prefix: Seq<char>)
    requires
        prefix == "tabs_"@ || prefix == "tabs_hold_"@ || prefix == "tab_create_"@ || prefix
            == "tab_switch_"@,
        prefix.is_prefix_of(id),
        prefix.len() < id.len(),
        text::is_digit(id[prefix.len() as int]),
    ensures
        fixed_scenario(id) is None,
{
    reveal_strlit("cold_startup");
    reveal_strlit("warm_startup");
    reveal_strlit("first_page_load");
    reveal_strlit("navigation");
    reveal_strlit("tab_create");
    reveal_strlit("tab_switch");
    reveal_strlit("tab_resume");
    reveal_strlit("background_cpu");
    reveal_strlit("tab_create_");
    reveal_strlit("tab_switch_");
    reveal_strlit("tabs_");
    reveal_strlit("tabs_hold_");
    assert(id[0] == prefix[0] && id[3] == prefix[3]);
    assert(id[0] == 't');
    assert("cold_startup"@[0] == 'c' && "warm_startup"@[0] == 'w' && "first_page_load"@[0] == 'f'
        && "navigation"@[0] == 'n' && "background_cpu"@[0] == 'b');
    assert("tab_create"@[3] == '_' && "tab_switch"@[3] == '_' && "tab_resume"@[3] == '_');
    assert("tabs_"@[3] == 's' && "tabs_hold_"@[3] == 's');
}

/// An identifier with a digit where the fixed part of a family ends belongs to
/// that family.
proof fn lemma_family(id: Seq<char>, prefix: Seq<char>)
    requires
        prefix == "tabs_"@ || prefix == "tabs_hold_"@ || prefix == "tab_create_"@ || prefix
            == "tab_switch_"@,
        prefix.is_prefix_of(id),
        prefix.len() < id.len(),
        text::is_digit(id[prefix.len() as int]),
    ensures
        "tabs_hold_"@.is_prefix_of(id) <==> prefix == "tabs_hold_"@,
        prefix == "tabs_"@ ==> "tabs_"@.is_prefix_of(id),
        prefix == "tab_create_"@ ==> !"tabs_"@.is_prefix_of(id),
        prefix == "tab_switch_"@ ==> !"tabs_"@.is_prefix_of(id) && !"tab_create_"@.is_prefix_of(
            id,
        ),
{
    reveal_strlit("tab_create_");
    reveal_strlit("tab_switch_");
    reveal_strlit("tabs_");
    reveal_strlit("tabs_hold_");
    assert("tabs_hold_"@[5] == 'h' && "tabs_hold_"@[3] == 's' && "tabs_"@[3] == 's');
    assert("tab_create_"@[3] == '_' && "tab_switch_"@[3] == '_');
    assert("tab_create_"@[4] == 'c' && "tab_switch_"@[4] == 's');
    assert(id[3] == prefix[3] && id[4] == prefix[4]);
    if prefix == "tabs_"@ && "tabs_hold_"@.is_prefix_of(id) {
        assert(id[5] == "tabs_hold_"@[5]);
    }
    if prefix == "tab_create_"@ || prefix == "tab_switch_"@ {
        if "tabs_"@.is_prefix_of(id) {
            assert(id[3] == "tabs_"@[3]);
        }
        if "tabs_hold_"@.is_prefix_of(id) {
            assert(id[3] == "tabs_hold_"@[3]);
        }
    }
    if prefix == "tab_switch_"@ && "tab_create_"@.is_prefix_of(id) {
        assert(id[4] == "tab_create_"@[4]);
    }
}

/// A scenario is in the catalog exactly where it has no number of tabs, or one of
/// those that the scenarios come with: 1, 5, 10, 20 or 50.
pub proof fn the_catalog_holds_what_is_listed(s: Scenario)
    ensures
        catalog().contains(s) <==> s.is_listed(),
        s.is_listed() <==> match s {
            Scenario::TabCreateAt(n) => n == 1 || n == 5 || n == 10 || n == 20 || n == 50,
            Scenario::TabSwitchAt(n) => n == 1 || n == 5 || n == 10 || n == 20 || n == 50,
            Scenario::TabCountMemory(n) => n == 1 || n == 5 || n == 10 || n == 20 || n == 50,
            Scenario::TabCountMemoryHold(n) => n == 1 || n == 5 || n == 10 || n == 20 || n == 50,
            _ => true,
        },
{
    let all = catalog();
    let counts = tab_counts();
    let k: int = match id_parts(s).1 {
        None => 0,
        Some(n) => if n == 1 {
            0
        } else if n == 5 {
            1
        } else if n == 10 {
            2
        } else if n == 20 {
            3
        } else {
            4
        },
    };
    let i: int = match s {
        Scenario::ColdStartup => 0,
        Scenario::WarmStartup => 1,
        Scenario::FirstPageLoad => 2,
        Scenario::Navigation => 3,
        Scenario::TabCreate => 4,
        Scenario::TabSwitch => 5,
        Scenario::TabResume => 6,
        Scenario::BackgroundCpu => 7,
        Scenario::TabCountMemory(_) => 8 + k,
        Scenario::TabCountMemoryHold(_) => 13 + k,
        Scenario::TabCreateAt(_) => 18 + k,
        Scenario::TabSwitchAt(_) => 23 + k,
    };
    assert(all.len() == 28);
    if s.is_listed() {
        assert(all[i] == s);
    }
    if all.contains(s) {
        let j = all.index_of(s);
        assert(all[j] == s);
        if 8 <= j < 13 {
            assert(all[j] == Scenario::TabCountMemory(counts[j - 8]));
        } else if 13 <= j < 18 {
            assert(all[j] == Scenario::TabCountMemoryHold(counts[j - 13]));
        } else if 18 <= j < 23 {
            assert(all[j] == Scenario::TabCreateAt(counts[j - 18]));
        } else if 23 <= j {
            assert(all[j] == Scenario::TabSwitchAt(counts[j - 23]));
        }
    }
}

/// No two scenarios of the catalog have the same identifier, and an identifier names
/// only what is in the catalog.
pub proof fn identifiers_tell_scenarios_apart(a: Scenario, b: Scenario, id: Seq<char>)
    ensures
        a.is_listed() && b.is_listed() && id_text(a) == id_text(b) ==> a == b,
        scenario_named(id) matches Some(s) ==> s.is_listed(),
{
    if a.is_listed() && b.is_listed() && id_text(a) == id_text(b) {
        an_id_reads_back(a);
        an_id_reads_back(b);
    }
}

} // verus!
