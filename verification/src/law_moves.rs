//! What the keys do, and where selections go.

use crate::app;
use crate::app::App;
use crate::keys;
use crate::keys::{Command, Press};
use crate::search;
use crate::tab::{PercentileMode, Tab};
use crate::types::{BpfOpLatency, IpAddr, MountView, ServerAgg, SortKey, UnitsMode};
use vstd::prelude::*;

verus! {

/// A selection goes as many rows as asked for, and stops at the first and the last.
pub proof fn law_steps(idx: usize, delta: i32, len: usize)
    requires
        idx < len <= i64::MAX,
    ensures
        0 <= idx + delta < len ==> app::stepped(idx, delta, len) == idx + delta,
        idx + delta < 0 ==> app::stepped(idx, delta, len) == 0,
        idx + delta >= len ==> app::stepped(idx, delta, len) == len - 1,
{
}

/// Whether nothing but the selections differs.
pub open spec fn same_but_selections(old: App, new: App) -> bool {
    &&& new.tab == old.tab
    &&& new.paused == old.paused
    &&& new.filter == old.filter
    &&& new.filter_lower == old.filter_lower
    &&& new.sort == old.sort
    &&& new.units == old.units
    &&& new.interval == old.interval
    &&& new.snapshot == old.snapshot
    &&& new.read_hist == old.read_hist
    &&& new.write_hist == old.write_hist
    &&& new.ops_hist == old.ops_hist
    &&& new.rtt_hist == old.rtt_hist
    &&& new.cumulative_read_bytes == old.cumulative_read_bytes
    &&& new.cumulative_write_bytes == old.cumulative_write_bytes
    &&& new.last_error == old.last_error
    &&& new.last_sample == old.last_sample
    &&& new.percentile_mode == old.percentile_mode
    &&& new.history_len == old.history_len
    &&& new.mount_histories == old.mount_histories
    &&& new.server_histories == old.server_histories
    &&& new.cached_visible_idx == old.cached_visible_idx
    &&& new.cached_servers == old.cached_servers
}

/// Among the mounts the selection moves to another row, and its key is the mountpoint in that
/// row; the other selections stay.
pub proof fn law_mount_selection_moves(old: App, new: App, delta: i32)
    requires
        app::mount_moved(old, new, delta),
        old.selected < old.cached_visible_idx@.len() <= i64::MAX,
        forall|i: int|
            0 <= i < old.cached_visible_idx@.len() ==> #[trigger] old.cached_visible_idx@[i] < old.mounts().len(),
        old.cached_visible_idx@.len() <= usize::MAX,
    ensures
        new.selected < old.cached_visible_idx@.len(),
        0 <= old.selected + delta < old.cached_visible_idx@.len() ==> new.selected == old.selected + delta,
        old.selected + delta < 0 ==> new.selected == 0,
        old.selected + delta >= old.cached_visible_idx@.len() ==> new.selected == old.cached_visible_idx@.len() - 1,
        new.selected_mount_key == Some(
            old.mounts()[old.cached_visible_idx@[new.selected as int] as int].counters.mountpoint,
        ),
        new.server_selected == old.server_selected,
        new.selected_server_key == old.selected_server_key,
        new.selected_op_key == old.selected_op_key,
        same_but_selections(old, new),
{
    law_steps(old.selected, delta, old.cached_visible_idx@.len() as usize);
    assert(old.cached_visible_idx@[new.selected as int] < old.mounts().len());
}

/// Among the servers the selection moves to another row, and its key is the address in that row;
/// the other selections stay.
pub proof fn law_server_selection_moves(old: App, new: App, delta: i32)
    requires
        app::server_moved(old, new, delta),
        old.server_selected < old.cached_servers@.len() <= i64::MAX,
        old.cached_servers@.len() <= usize::MAX,
    ensures
        new.server_selected < old.cached_servers@.len(),
        0 <= old.server_selected + delta < old.cached_servers@.len() ==> new.server_selected == old.server_selected
            + delta,
        old.server_selected + delta < 0 ==> new.server_selected == 0,
        old.server_selected + delta >= old.cached_servers@.len() ==> new.server_selected
            == old.cached_servers@.len() - 1,
        new.selected_server_key == Some(old.cached_servers@[new.server_selected as int].addr),
        new.selected == old.selected,
        new.selected_mount_key == old.selected_mount_key,
        new.selected_op_key == old.selected_op_key,
        same_but_selections(old, new),
{
    law_steps(old.server_selected, delta, old.cached_servers@.len() as usize);
}

/// Among the kinds of calls the selection moves from the row of its key, or from the first, to
/// another row of the selected mount; the other selections stay.
pub proof fn law_call_selection_moves(old: App, new: App, delta: i32)
    requires
        app::op_moved(old, new, delta),
    ensures
        new.selected == old.selected,
        new.selected_mount_key == old.selected_mount_key,
        new.server_selected == old.server_selected,
        new.selected_server_key == old.selected_server_key,
        same_but_selections(old, new),
        old.bpf() is None ==> new.selected_op_key == old.selected_op_key,
        old.bpf() matches Some(b) ==> {
            let n = b.per_op@.len();
            let row = app::op_row(b.per_op@, old.selected_op_key);
            &&& n == 0 ==> new.selected_op_key == old.selected_op_key
            &&& 0 <= row < n <= i64::MAX && n <= usize::MAX ==> new.selected_op_key == Some(
                b.per_op@[if row + delta < 0 {
                    0
                } else if row + delta >= n {
                    n - 1
                } else {
                    row + delta
                }].op,
            )
        },
{
    if let Some(b) = old.bpf() {
        let n = b.per_op@.len();
        let row = app::op_row(b.per_op@, old.selected_op_key);
        if 0 <= row < n <= i64::MAX && n <= usize::MAX {
            law_steps(row as usize, delta, n as usize);
        }
    }
}

/// The time between samples grows and shrinks by a tenth of a second, between a tenth of a second
/// and ten.
pub proof fn law_interval_steps(ms: u64)
    ensures
        ms <= 9_900 ==> app::longer(ms) == ms + 100,
        ms > 9_900 ==> app::longer(ms) == 10_000,
        ms >= 200 ==> app::shorter(ms) == ms - 100,
        ms < 200 ==> app::shorter(ms) == 100,
{
}

/// Each key asks for one thing: letters for what they name, the arrows as `h`, `l`, `k` and `j`.
pub proof fn law_keys(c: char)
    ensures
        keys::meaning(Press::Char('q')) == Some(Command::Quit),
        keys::meaning(Press::Char('?')) == Some(Command::Help),
        keys::meaning(Press::Char('h')) == Some(Command::PreviousTab),
        keys::meaning(Press::Left) == keys::meaning(Press::Char('h')),
        keys::meaning(Press::Char('l')) == Some(Command::NextTab),
        keys::meaning(Press::Right) == keys::meaning(Press::Char('l')),
        keys::meaning(Press::Char('k')) == Some(Command::Select((-1) as i32)),
        keys::meaning(Press::Up) == keys::meaning(Press::Char('k')),
        keys::meaning(Press::Char('j')) == Some(Command::Select(1)),
        keys::meaning(Press::Down) == keys::meaning(Press::Char('j')),
        keys::meaning(Press::Char(' ')) == Some(Command::Pause),
        keys::meaning(Press::Char('r')) == Some(Command::Reset),
        keys::meaning(Press::Char('s')) == Some(Command::CycleSort),
        keys::meaning(Press::Char('p')) == Some(Command::CycleTrend),
        keys::meaning(Press::Char('a')) == Some(Command::Units(UnitsMode::Auto)),
        keys::meaning(Press::Char('m')) == Some(Command::Units(UnitsMode::MiB)),
        keys::meaning(Press::Char('g')) == Some(Command::Units(UnitsMode::GiB)),
        keys::meaning(Press::Char('t')) == Some(Command::Units(UnitsMode::TiB)),
        keys::meaning(Press::Char('+')) == Some(Command::Slower),
        keys::meaning(Press::Char('-')) == Some(Command::Faster),
        keys::meaning(Press::Char(c)) == Some(Command::Quit) ==> c == 'q',
        keys::meaning(Press::Char(c)) is Some ==> seq![
            'q',
            '?',
            'h',
            'l',
            'k',
            'j',
            ' ',
            'r',
            's',
            'p',
            'a',
            'm',
            'g',
            't',
            '+',
            '-',
        ].contains(c),
{
    let all = seq!['q', '?', 'h', 'l', 'k', 'j', ' ', 'r', 's', 'p', 'a', 'm', 'g', 't', '+', '-'];
    assert(all[0] == 'q' && all[1] == '?' && all[2] == 'h' && all[3] == 'l' && all[4] == 'k' && all[5] == 'j'
        && all[6] == ' ' && all[7] == 'r' && all[8] == 's' && all[9] == 'p' && all[10] == 'a' && all[11] == 'm'
        && all[12] == 'g' && all[13] == 't' && all[14] == '+' && all[15] == '-');
}

/// Whether one tab stands right of another, and the first right of the last.
pub open spec fn next_tab(a: Tab, b: Tab) -> bool {
    ||| a == Tab::Servers && b == Tab::RpcMix
    ||| a == Tab::RpcMix && b == Tab::Trends
    ||| a == Tab::Trends && b == Tab::Hist
    ||| a == Tab::Hist && b == Tab::Connections
    ||| a == Tab::Connections && b == Tab::Raw
    ||| a == Tab::Raw && b == Tab::Help
    ||| a == Tab::Help && b == Tab::Servers
}

/// The tab keys go one to the right or to the left and change nothing else; the other keys that
/// change one setting leave the rest as it is.
pub proof fn law_settings(old: App, new: App, units: UnitsMode)
    ensures
        keys::obeyed(old, new, Command::Quit) ==> new == old,
        keys::obeyed(old, new, Command::NextTab) ==> next_tab(old.tab, new.tab) && new == (App {
            tab: new.tab,
            ..old
        }),
        keys::obeyed(old, new, Command::PreviousTab) ==> next_tab(new.tab, old.tab) && new == (App {
            tab: new.tab,
            ..old
        }),
        keys::obeyed(old, new, Command::Help) ==> new.tab == Tab::Help && new == (App { tab: new.tab, ..old }),
        keys::obeyed(old, new, Command::Pause) ==> new.paused != old.paused && new == (App {
            paused: new.paused,
            ..old
        }),
        keys::obeyed(old, new, Command::Units(units)) ==> new.units == units && new == (App {
            units: new.units,
            ..old
        }),
        keys::obeyed(old, new, Command::Slower) ==> new.interval == app::longer(old.interval) && new == (App {
            interval: new.interval,
            ..old
        }),
        keys::obeyed(old, new, Command::Faster) ==> new.interval == app::shorter(old.interval) && new == (App {
            interval: new.interval,
            ..old
        }),
        keys::obeyed(old, new, Command::CycleTrend) ==> new == (App { percentile_mode: new.percentile_mode, ..old })
            && match old.percentile_mode {
            PercentileMode::All => new.percentile_mode == PercentileMode::Avg,
            PercentileMode::Avg => new.percentile_mode == PercentileMode::P90,
            PercentileMode::P90 => new.percentile_mode == PercentileMode::P95,
            PercentileMode::P95 => new.percentile_mode == PercentileMode::P99,
            PercentileMode::P99 => new.percentile_mode == PercentileMode::All,
        },
{
}

/// The keys for rows move the selection of the tab that is shown: servers, kinds of calls, or
/// mounts.
pub proof fn law_row_keys(old: App, new: App, delta: i32)
    requires
        keys::obeyed(old, new, Command::Select(delta)),
    ensures
        old.tab == Tab::Servers ==> app::server_moved(old, new, delta),
        old.tab == Tab::Hist ==> app::op_moved(old, new, delta),
        old.tab != Tab::Servers && old.tab != Tab::Hist ==> app::mount_moved(old, new, delta),
{
}

/// The key for sorting goes to the next of the eight keys.
pub proof fn law_sort_key(old: App, new: App)
    requires
        keys::obeyed(old, new, Command::CycleSort),
    ensures
        match old.sort {
            SortKey::Read => new.sort == SortKey::Write,
            SortKey::Write => new.sort == SortKey::Ops,
            SortKey::Ops => new.sort == SortKey::Rtt,
            SortKey::Rtt => new.sort == SortKey::Exe,
            SortKey::Exe => new.sort == SortKey::Mount,
            SortKey::Mount => new.sort == SortKey::Nconnect,
            SortKey::Nconnect => new.sort == SortKey::ObsConn,
            SortKey::ObsConn => new.sort == SortKey::Read,
        },
        app::resorted(old, new, new.sort),
{
}

/// The latencies that are shown are those of the mount in the selected row.
pub proof fn law_selected_latencies(app: App)
    ensures
        app.selected >= app.cached_visible_idx@.len() ==> app.bpf() is None,
        app.selected < app.cached_visible_idx@.len() && app.cached_visible_idx@[app.selected as int]
            < app.mounts().len() ==> app.bpf()
            == app.mounts()[app.cached_visible_idx@[app.selected as int] as int].derived.bpf,
{
}

/// The mounts that are shown are those at the indices of the rows, in their order.
pub proof fn law_rows_show(mounts: Seq<MountView>, idx: Seq<usize>, row: int)
    requires
        forall|i: int| 0 <= i < idx.len() ==> #[trigger] idx[i] < mounts.len(),
    ensures
        app::shown(mounts, idx).len() == idx.len(),
        0 <= row < idx.len() ==> *app::shown(mounts, idx)[row] == mounts[idx[row] as int],
    decreases idx.len(),
{
    if idx.len() > 0 {
        let front = idx.drop_last();
        assert forall|i: int| 0 <= i < front.len() implies #[trigger] front[i] < mounts.len() by {
            assert(front[i] == idx[i]);
        }
        assert(idx[idx.len() - 1] < mounts.len());
        law_rows_show(mounts, front, row);
    }
}

/// The row of a kind of call is the first that shows it, and the first of all where none does.
pub proof fn law_call_row(per_op: Seq<BpfOpLatency>, key: String, i: int)
    ensures
        app::op_row(per_op, None) == 0,
        0 <= i < per_op.len() && per_op[i].op@ == key@ && (forall|j: int|
            0 <= j < i ==> (#[trigger] per_op[j]).op@ != key@) ==> app::op_row(per_op, Some(key)) == i,
        (forall|j: int| 0 <= j < per_op.len() ==> (#[trigger] per_op[j]).op@ != key@) ==> app::op_row(
            per_op,
            Some(key),
        ) == 0,
{
    let p = |o: BpfOpLatency| o.op@ == key@;
    if 0 <= i < per_op.len() && per_op[i].op@ == key@ && (forall|j: int|
        0 <= j < i ==> (#[trigger] per_op[j]).op@ != key@) {
        search::lemma_first_is(per_op, p, i);
    }
    if forall|j: int| 0 <= j < per_op.len() ==> (#[trigger] per_op[j]).op@ != key@ {
        search::lemma_first_none(per_op, p);
    }
}

/// Whether a row shows a mountpoint.
pub open spec fn row_shows(app: App, row: int, mountpoint: Seq<char>) -> bool {
    &&& 0 <= row < app.cached_visible_idx@.len()
    &&& app.cached_visible_idx@[row] < app.mounts().len()
    &&& app.mounts()[app.cached_visible_idx@[row] as int].counters.mountpoint@ == mountpoint
}

/// When rows have moved, the selection goes to the first row that shows its mountpoint; where no
/// row does it stays, or goes to the last row, and takes the mountpoint in that row.
pub proof fn law_mount_selection_found(old: App, new: App, key: String, row: int)
    requires
        app::resynced(old, new),
        old.selected_mount_key == Some(key),
    ensures
        row_shows(old, row, key@) && (forall|r: int| 0 <= r < row ==> !#[trigger] row_shows(old, r, key@))
            ==> new.selected == row && new.selected_mount_key == Some(key),
        (forall|r: int| !#[trigger] row_shows(old, r, key@)) ==> {
            let n = old.cached_visible_idx@.len();
            &&& n == 0 ==> new.selected == 0
            &&& n > 0 ==> new.selected == (if old.selected < n {
                old.selected as int
            } else {
                n - 1
            })
            &&& n > 0 && old.cached_visible_idx@[new.selected as int] < old.mounts().len()
                ==> new.selected_mount_key == Some(
                old.mounts()[old.cached_visible_idx@[new.selected as int] as int].counters.mountpoint,
            )
        },
        same_but_selections(old, new),
{
    let p = |i: usize| i < old.mounts().len() && old.mounts()[i as int].counters.mountpoint@ == key@;
    let idx = old.cached_visible_idx@;
    if row_shows(old, row, key@) && (forall|r: int| 0 <= r < row ==> !#[trigger] row_shows(old, r, key@)) {
        assert forall|j: int| 0 <= j < row implies !p(#[trigger] idx[j]) by {
            assert(!row_shows(old, j, key@));
        }
        search::lemma_first_is(idx, p, row);
        assert(old.row_of_mount(key@) == Some(row));
    }
    if forall|r: int| !#[trigger] row_shows(old, r, key@) {
        assert forall|j: int| 0 <= j < idx.len() implies !p(#[trigger] idx[j]) by {
            assert(!row_shows(old, j, key@));
        }
        search::lemma_first_none(idx, p);
        assert(old.row_of_mount(key@) is None);
    }
}

/// When rows have moved, the selection goes to the row of its server; where there is none it
/// stays, or goes to the last row, and takes the address in that row.
pub proof fn law_server_selection_found(old: App, new: App, addr: Option<IpAddr>, row: int)
    requires
        app::resynced(old, new),
        old.selected_server_key == Some(addr),
    ensures
        0 <= row < old.cached_servers@.len() && old.cached_servers@[row].addr == addr && (forall|r: int|
            0 <= r < row ==> (#[trigger] old.cached_servers@[r]).addr != addr) ==> new.server_selected == row
            && new.selected_server_key == Some(addr),
        (forall|r: int| 0 <= r < old.cached_servers@.len() ==> (#[trigger] old.cached_servers@[r]).addr != addr) ==> {
            let n = old.cached_servers@.len();
            &&& n == 0 ==> new.server_selected == 0
            &&& n > 0 ==> new.server_selected == (if old.server_selected < n {
                old.server_selected as int
            } else {
                n - 1
            }) && new.selected_server_key == Some(old.cached_servers@[new.server_selected as int].addr)
        },
{
    let p = |s: ServerAgg| s.addr == addr;
    let servers = old.cached_servers@;
    if 0 <= row < servers.len() && servers[row].addr == addr && (forall|r: int|
        0 <= r < row ==> (#[trigger] servers[r]).addr != addr) {
        search::lemma_first_is(servers, p, row);
        assert(old.row_of_server(addr) == Some(row));
    }
    if forall|r: int| 0 <= r < servers.len() ==> (#[trigger] servers[r]).addr != addr {
        search::lemma_first_none(servers, p);
        assert(old.row_of_server(addr) is None);
    }
}

} // verus!
