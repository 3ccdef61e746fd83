//! The tabs of the display and the modes of its trend charts.

use vstd::prelude::*;

verus! {

/// A tab.
#[derive(Debug, Clone, Copy, PartialEq, Eq, Structural)]
pub enum Tab {
    Servers,
    RpcMix,
    Trends,
    Hist,
    Connections,
    Raw,
    Help,
}

impl Tab {
    /// The place of the tab in the row of titles, counted from the left.
    pub open spec fn position(self) -> nat {
        match self {
            Tab::Servers => 0,
            Tab::RpcMix => 1,
            Tab::Trends => 2,
            Tab::Hist => 3,
            Tab::Connections => 4,
            Tab::Raw => 5,
            Tab::Help => 6,
        }
    }

    /// The tab at a place in the row, the row being repeated without end.
    pub open spec fn at(place: nat) -> Tab {
        let p = place % 7;
        if p == 0 {
            Tab::Servers
        } else if p == 1 {
            Tab::RpcMix
        } else if p == 2 {
            Tab::Trends
        } else if p == 3 {
            Tab::Hist
        } else if p == 4 {
            Tab::Connections
        } else if p == 5 {
            Tab::Raw
        } else {
            Tab::Help
        }
    }

    /// The title of the tab.
    pub open spec fn title(self) -> Seq<char> {
        match self {
            Tab::Servers => "Servers"@,
            Tab::RpcMix => "RPC Mix"@,
            Tab::Trends => "Trends"@,
            Tab::Hist => "Hist"@,
            Tab::Connections => "Connections"@,
            Tab::Raw => "Raw"@,
            Tab::Help => "Help"@,
        }
    }

    /// The titles from left to right.
    pub fn titles() -> (r: [&'static str; 7])
        ensures
            forall|tab: Tab| #![trigger tab.position()] r@[tab.position() as int]@ == tab.title(),
    {
        ["Servers", "RPC Mix", "Trends", "Hist", "Connections", "Raw", "Help"]
    }

    /// The tab to the right; the leftmost after the rightmost.
    pub fn next(self) -> (r: Self)
        ensures
            r == Tab::at(self.position() + 1),
    {
        match self {
            Tab::Servers => Tab::RpcMix,
            Tab::RpcMix => Tab::Trends,
            Tab::Trends => Tab::Hist,
            Tab::Hist => Tab::Connections,
            Tab::Connections => Tab::Raw,
            Tab::Raw => Tab::Help,
            Tab::Help => Tab::Servers,
        }
    }

    /// The tab to the left; the rightmost before the leftmost.
    pub fn prev(self) -> (r: Self)
        ensures
            r == Tab::at(self.position() + 6),
    {
        match self {
            Tab::Servers => Tab::Help,
            Tab::RpcMix => Tab::Servers,
            Tab::Trends => Tab::RpcMix,
            Tab::Hist => Tab::Trends,
            Tab::Connections => Tab::Hist,
            Tab::Raw => Tab::Connections,
            Tab::Help => Tab::Raw,
        }
    }

    /// The place of the tab in the row of titles.
    pub fn idx(self) -> (r: usize)
        ensures
            r == self.position(),
    {
        match self {
            Tab::Servers => 0,
            Tab::RpcMix => 1,
            Tab::Trends => 2,
            Tab::Hist => 3,
            Tab::Connections => 4,
            Tab::Raw => 5,
            Tab::Help => 6,
        }
    }
}

/// Every tab stands at its place, and every place holds one tab.
pub proof fn law_tab_places(tab: Tab, place: nat)
    ensures
        tab.position() < 7,
        Tab::at(tab.position()) == tab,
        place < 7 ==> Tab::at(place).position() == place,
{
}

/// A step to the right and a step to the left undo each other, and seven steps to the right go
/// all the way round.
pub proof fn law_tab_steps(tab: Tab)
    ensures
        Tab::at(Tab::at(tab.position() + 1).position() + 6) == tab,
        Tab::at(Tab::at(tab.position() + 6).position() + 1) == tab,
        Tab::at(tab.position() + 7) == tab,
{
}

/// What a trend chart shows.
#[derive(Debug, Clone, Copy, PartialEq, Eq, Structural)]
pub enum PercentileMode {
    All,
    Avg,
    P90,
    P95,
    P99,
}

impl PercentileMode {
    /// The place of the mode in the cycle of modes.
    pub open spec fn position(self) -> nat {
        match self {
            PercentileMode::All => 0,
            PercentileMode::Avg => 1,
            PercentileMode::P90 => 2,
            PercentileMode::P95 => 3,
            PercentileMode::P99 => 4,
        }
    }

    /// The mode at a place of the cycle.
    pub open spec fn at(place: nat) -> PercentileMode {
        let p = place % 5;
        if p == 0 {
            PercentileMode::All
        } else if p == 1 {
            PercentileMode::Avg
        } else if p == 2 {
            PercentileMode::P90
        } else if p == 3 {
            PercentileMode::P95
        } else {
            PercentileMode::P99
        }
    }

    /// The name of the mode.
    pub open spec fn name(self) -> Seq<char> {
        match self {
            PercentileMode::All => "all"@,
            PercentileMode::Avg => "avg"@,
            PercentileMode::P90 => "p90"@,
            PercentileMode::P95 => "p95"@,
            PercentileMode::P99 => "p99"@,
        }
    }

    /// The next mode of the cycle.
    pub fn next(self) -> (r: Self)
        ensures
            r == PercentileMode::at(self.position() + 1),
    {
        match self {
            PercentileMode::All => PercentileMode::Avg,
            PercentileMode::Avg => PercentileMode::P90,
            PercentileMode::P90 => PercentileMode::P95,
            PercentileMode::P95 => PercentileMode::P99,
            PercentileMode::P99 => PercentileMode::All,
        }
    }

    /// The name of the mode.
    pub fn label(self) -> (r: &'static str)
        ensures
            r@ == self.name(),
    {
        match self {
            PercentileMode::All => "all",
            PercentileMode::Avg => "avg",
            PercentileMode::P90 => "p90",
            PercentileMode::P95 => "p95",
            PercentileMode::P99 => "p99",
        }
    }
}

/// Every mode stands at its place of the cycle, and five steps go all the way round.
pub proof fn law_mode_cycle(mode: PercentileMode, place: nat)
    ensures
        mode.position() < 5,
        PercentileMode::at(mode.position()) == mode,
        PercentileMode::at(mode.position() + 5) == mode,
        place < 5 ==> PercentileMode::at(place).position() == place,
{
}

} // verus!
