//! What the keys do.

use crate::app;
use crate::app::App;
use crate::tab::{PercentileMode, Tab};
use crate::types::{SortKey, UnitsMode};
use vstd::prelude::*;

verus! {

/// A key.
#[derive(Debug, Clone, Copy, PartialEq, Eq, Structural)]
pub enum Press {
    Char(char),
    Left,
    Right,
    Up,
    Down,
}

/// What a key asks for.
#[derive(Debug, Clone, Copy, PartialEq, Eq, Structural)]
pub enum Command {
    Quit,
    PreviousTab,
    NextTab,
    Help,
    /// Moves the selection of the tab by so many rows.
    Select(i32),
    Pause,
    Reset,
    CycleSort,
    CycleTrend,
    Units(UnitsMode),
    Slower,
    Faster,
}

/// What a key asks for; none where it has no meaning.
pub open spec fn meaning(key: Press) -> Option<Command> {
    match key {
        Press::Left => Some(Command::PreviousTab),
        Press::Right => Some(Command::NextTab),
        Press::Up => Some(Command::Select((-1) as i32)),
        Press::Down => Some(Command::Select(1)),
        Press::Char(c) => if c == 'q' {
            Some(Command::Quit)
        } else if c == 'h' {
            Some(Command::PreviousTab)
        } else if c == 'l' {
            Some(Command::NextTab)
        } else if c == '?' {
            Some(Command::Help)
        } else if c == 'j' {
            Some(Command::Select(1))
        } else if c == 'k' {
            Some(Command::Select((-1) as i32))
        } else if c == ' ' {
            Some(Command::Pause)
        } else if c == 'r' {
            Some(Command::Reset)
        } else if c == 's' {
            Some(Command::CycleSort)
        } else if c == 'p' {
            Some(Command::CycleTrend)
        } else if c == 'a' {
            Some(Command::Units(UnitsMode::Auto))
        } else if c == 'm' {
            Some(Command::Units(UnitsMode::MiB))
        } else if c == 'g' {
            Some(Command::Units(UnitsMode::GiB))
        } else if c == 't' {
            Some(Command::Units(UnitsMode::TiB))
        } else if c == '+' {
            Some(Command::Slower)
        } else if c == '-' {
            Some(Command::Faster)
        } else {
            None
        },
    }
}

/// What a key asks for.
pub fn command(key: Press) -> (r: Option<Command>)
    ensures
        r == meaning(key),
{
    match key {
        Press::Left => Some(Command::PreviousTab),
        Press::Right => Some(Command::NextTab),
        Press::Up => Some(Command::Select(-1)),
        Press::Down => Some(Command::Select(1)),
        Press::Char(c) => match c {
            'q' => Some(Command::Quit),
            'h' => Some(Command::PreviousTab),
            'l' => Some(Command::NextTab),
            '?' => Some(Command::Help),
            'j' => Some(Command::Select(1)),
            'k' => Some(Command::Select(-1)),
            ' ' => Some(Command::Pause),
            'r' => Some(Command::Reset),
            's' => Some(Command::CycleSort),
            'p' => Some(Command::CycleTrend),
            'a' => Some(Command::Units(UnitsMode::Auto)),
            'm' => Some(Command::Units(UnitsMode::MiB)),
            'g' => Some(Command::Units(UnitsMode::GiB)),
            't' => Some(Command::Units(UnitsMode::TiB)),
            '+' => Some(Command::Slower),
            '-' => Some(Command::Faster),
            _ => None,
        },
    }
}

/// Whether `new` is `old` after a command. A selection is moved among the servers on their tab,
/// among the kinds of calls on the histogram tab, and among the mounts on every other.
pub open spec fn obeyed(old: App, new: App, c: Command) -> bool {
    match c {
        Command::Quit => new == old,
        Command::PreviousTab => new == (App { tab: Tab::at(old.tab.position() + 6), ..old }),
        Command::NextTab => new == (App { tab: Tab::at(old.tab.position() + 1), ..old }),
        Command::Help => new == (App { tab: Tab::Help, ..old }),
        Command::Select(delta) => match old.tab {
            Tab::Servers => app::server_moved(old, new, delta),
            Tab::Hist => app::op_moved(old, new, delta),
            _ => app::mount_moved(old, new, delta),
        },
        Command::Pause => new == (App { paused: !old.paused, ..old }),
        Command::Reset => app::is_reset(old, new),
        Command::CycleSort => app::resorted(old, new, SortKey::at(old.sort.position() + 1)),
        Command::CycleTrend => new == (App {
            percentile_mode: PercentileMode::at(old.percentile_mode.position() + 1),
            ..old
        }),
        Command::Units(units) => new == (App { units, ..old }),
        Command::Slower => new == (App { interval: app::longer(old.interval), ..old }),
        Command::Faster => new == (App { interval: app::shorter(old.interval), ..old }),
    }
}

/// Does what a key asks for, and tells whether that is to quit.
pub fn press(app: &mut App, key: Press) -> (quit: bool)
    requires
        old(app).wf(),
    ensures
        final(app).wf(),
        match meaning(key) {
            Some(c) => obeyed(*old(app), *final(app), c) && quit == (c == Command::Quit),
            None => *final(app) == *old(app) && !quit,
        },
{
    let c: Command = match command(key) {
        Some(c) => c,
        None => {
            return false;
        },
    };
    match c {
        Command::Quit => {
            return true;
        },
        Command::PreviousTab => {
            app.tab = app.tab.prev();
        },
        Command::NextTab => {
            app.tab = app.tab.next();
        },
        Command::Help => {
            app.tab = Tab::Help;
        },
        Command::Select(delta) => match app.tab {
            Tab::Servers => {
                app.move_server_selection(delta);
            },
            Tab::Hist => {
                app.move_hist_selection(delta);
            },
            _ => {
                app.move_mount_selection(delta);
            },
        },
        Command::Pause => {
            app.paused = !app.paused;
        },
        Command::Reset => {
            app.reset_baseline();
        },
        Command::CycleSort => {
            app.cycle_sort();
        },
        Command::CycleTrend => {
            app.percentile_mode = app.percentile_mode.next();
        },
        Command::Units(units) => {
            app.units = units;
        },
        Command::Slower => {
            app.increase_interval();
        },
        Command::Faster => {
            app.decrease_interval();
        },
    }
    false
}

} // verus!
