//! The state behind the display: the latest snapshot, what of it is shown and in which order,
//! what is selected, and the latest samples.

use crate::binary64;
use crate::binary64::Binary64;
use crate::history;
use crate::history::{record_mounts, record_servers, MountHistory, ServerHistory};
use crate::order;
use crate::rank;
use crate::rank::{sort_mounts, sort_servers};
use crate::ringbuf;
use crate::ringbuf::RingBuf;
use crate::search;
use crate::servers;
use crate::servers::aggregate_servers_from;
use crate::tab::{PercentileMode, Tab};
use crate::table;
use crate::table::{Key, Table};
use crate::text;
use crate::text::{contains, same, to_lowercase};
use crate::types::{BpfLatency, BpfOpLatency, IpAddr, MountView, ServerAgg, Snapshot, SortKey, Timestamp, UnitsMode};
use vstd::prelude::*;

verus! {

/// An index as a signed number: past the largest one it counts down from zero.
pub open spec fn signed_index(idx: usize) -> int {
    if idx <= i64::MAX {
        idx as int
    } else {
        idx - 0x1_0000_0000_0000_0000
    }
}

/// The index `delta` steps on, within a list of the given length.
pub open spec fn stepped(idx: usize, delta: i32, len: usize) -> usize {
    let to = signed_index(idx) + delta;
    if len == 0 || to < 0 {
        0
    } else if to > len - 1 {
        (len - 1) as usize
    } else {
        to as usize
    }
}

/// The index `delta` steps on, within a list of the given length.
pub fn step_index(idx: usize, delta: i32, len: usize) -> (r: usize)
    ensures
        r == stepped(idx, delta, len),
{
    if len == 0 {
        return 0;
    }
    let from: i128 = if idx as u64 <= i64::MAX as u64 {
        idx as i128
    } else {
        idx as i128 - 0x1_0000_0000_0000_0000
    };
    let to: i128 = from + delta as i128;
    if to < 0 {
        0
    } else if to > (len - 1) as i128 {
        len - 1
    } else {
        to as usize
    }
}

/// A step ends within the list, and no step at all stays where it is.
pub proof fn law_stepped_in_range(idx: usize, delta: i32, len: usize)
    ensures
        len > 0 ==> stepped(idx, delta, len) < len,
        idx < len && len <= i64::MAX ==> stepped(idx, 0, len) == idx,
{
}

/// Whether the filter text, which is in lower case, stands in one of two lowered texts; an empty
/// one does everywhere.
pub open spec fn text_matches(mountpoint: Seq<char>, device: Seq<char>, filter: Seq<char>) -> bool {
    filter.len() == 0 || text::occurs(mountpoint, filter) || text::occurs(device, filter)
}

/// Whether the filter text, which is in lower case, stands in one of two lowered texts; an empty
/// one does everywhere.
pub fn matches_text(mountpoint: &str, device: &str, filter: &str) -> (r: bool)
    ensures
        r == text_matches(mountpoint@, device@, filter@),
{
    filter.is_empty() || contains(mountpoint, filter) || contains(device, filter)
}

/// Whether a mount passes the filter.
pub open spec fn passes(m: MountView, filter: Seq<char>) -> bool {
    text_matches(
        text::lowercase(m.counters.mountpoint@),
        text::lowercase(m.counters.device@),
        filter,
    )
}

/// The indices of the mounts that pass the filter, in ascending order.
pub open spec fn passing(mounts: Seq<MountView>, filter: Seq<char>) -> Seq<usize>
    decreases mounts.len(),
{
    if mounts.len() == 0 {
        Seq::empty()
    } else {
        let rest = passing(mounts.drop_last(), filter);
        if passes(mounts.last(), filter) {
            rest.push((mounts.len() - 1) as usize)
        } else {
            rest
        }
    }
}

/// Sums over mounts.
pub struct FilterTotals {
    pub read_bps: Binary64,
    pub write_bps: Binary64,
    pub ops_per_sec: Binary64,
    pub rtt_ms: Binary64,
    pub rtt_count: nat,
}

/// The sums over the mounts that pass the filter, taken in order.
pub open spec fn filter_totals(mounts: Seq<MountView>, filter: Seq<char>) -> FilterTotals
    decreases mounts.len(),
{
    if mounts.len() == 0 {
        FilterTotals {
            read_bps: binary64::zero(),
            write_bps: binary64::zero(),
            ops_per_sec: binary64::zero(),
            rtt_ms: binary64::zero(),
            rtt_count: 0,
        }
    } else {
        let t = filter_totals(mounts.drop_last(), filter);
        let d = mounts.last().derived;
        if passes(mounts.last(), filter) {
            FilterTotals {
                read_bps: binary64::sum(t.read_bps, d.read_bps),
                write_bps: binary64::sum(t.write_bps, d.write_bps),
                ops_per_sec: binary64::sum(t.ops_per_sec, d.ops_per_sec),
                rtt_ms: match d.avg_rtt_ms {
                    Some(x) => binary64::sum(t.rtt_ms, x),
                    None => t.rtt_ms,
                },
                rtt_count: if d.avg_rtt_ms is Some {
                    t.rtt_count + 1
                } else {
                    t.rtt_count
                },
            }
        } else {
            t
        }
    }
}

/// The mean of the round trip times; zero where there is none.
pub open spec fn mean_rtt(t: FilterTotals) -> Binary64 {
    if t.rtt_count > 0 {
        binary64::quotient(t.rtt_ms, binary64::whole(t.rtt_count))
    } else {
        binary64::zero()
    }
}

/// A running total with what a rate has added in the given time, where that is a time.
pub open spec fn grown(total: Binary64, rate: Binary64, dt: Binary64) -> Binary64 {
    if binary64::less(binary64::zero(), dt) && dt.finite() {
        binary64::sum(total, binary64::product(rate, dt))
    } else {
        total
    }
}

/// The state behind the display.
pub struct App {
    pub tab: Tab,
    pub selected: usize,
    pub server_selected: usize,
    /// The mountpoint of the selected mount. When sorting moves the rows, the selection follows
    /// this key.
    pub selected_mount_key: Option<String>,
    /// The address of the selected server.
    pub selected_server_key: Option<Option<IpAddr>>,
    /// The kind of call that is selected on the histogram tab.
    pub selected_op_key: Option<String>,
    pub paused: bool,
    pub filter: String,
    pub filter_lower: String,
    pub sort: SortKey,
    pub units: UnitsMode,
    /// The time between samples, in milliseconds.
    pub interval: u64,
    pub snapshot: Option<Snapshot>,
    pub read_hist: RingBuf<Binary64>,
    pub write_hist: RingBuf<Binary64>,
    pub ops_hist: RingBuf<Binary64>,
    pub rtt_hist: RingBuf<Binary64>,
    pub cumulative_read_bytes: Binary64,
    pub cumulative_write_bytes: Binary64,
    pub last_error: Option<String>,
    /// When the latest snapshot was taken.
    pub last_sample: Option<Timestamp>,
    pub percentile_mode: PercentileMode,
    pub history_len: usize,
    pub mount_histories: Table<String, MountHistory>,
    pub server_histories: Table<Option<IpAddr>, ServerHistory>,
    /// The indices of the mounts that are shown, in the order of the rows.
    pub cached_visible_idx: Vec<usize>,
    /// The servers, in the order of the rows.
    pub cached_servers: Vec<ServerAgg>,
}

/// Whether `after` holds the items of `before` in some order.
pub open spec fn rearranged<T>(before: Seq<T>, after: Seq<T>) -> bool {
    exists|perm: Seq<int>| order::arranges(before, after, perm)
}

/// Whether the servers are those of the mounts, in some order.
pub open spec fn shows_servers(servers: Seq<ServerAgg>, mounts: Seq<MountView>) -> bool {
    exists|aggs: Seq<ServerAgg>| #[trigger]
        servers::are_aggregates(aggs, mounts) && rearranged(aggs, servers)
}

impl App {
    /// The mounts of the latest snapshot.
    pub open spec fn mounts(self) -> Seq<MountView> {
        match self.snapshot {
            Some(snap) => snap.mounts@,
            None => Seq::empty(),
        }
    }

    /// Whether the rows show the servers of the latest snapshot and its mounts that pass the
    /// filter, each once, in whatever case the filter is written, and every series keeps the
    /// number of samples that was asked for.
    pub open spec fn wf(self) -> bool {
        &&& self.filter_lower@ == text::lowercase(self.filter@)
        &&& self.read_hist.wf() && self.read_hist.cap == self.history_len
        &&& self.write_hist.wf() && self.write_hist.cap == self.history_len
        &&& self.ops_hist.wf() && self.ops_hist.cap == self.history_len
        &&& self.rtt_hist.wf() && self.rtt_hist.cap == self.history_len
        &&& history::mount_histories_wf(self.mount_histories.entries@, self.history_len)
        &&& history::server_histories_wf(self.server_histories.entries@, self.history_len)
        &&& rearranged(passing(self.mounts(), self.filter_lower@), self.cached_visible_idx@)
        &&& shows_servers(self.cached_servers@, self.mounts())
    }

    /// The mount in a row.
    pub open spec fn mount_in_row(self, row: int) -> Option<MountView> {
        if 0 <= row < self.cached_visible_idx@.len() && self.cached_visible_idx@[row]
            < self.mounts().len() {
            Some(self.mounts()[self.cached_visible_idx@[row] as int])
        } else {
            None
        }
    }

    /// The first row that shows a mountpoint.
    pub open spec fn row_of_mount(self, mountpoint: Seq<char>) -> Option<int> {
        search::first(
            self.cached_visible_idx@,
            |i: usize|
                i < self.mounts().len() && self.mounts()[i as int].counters.mountpoint@ == mountpoint,
        )
    }

    /// The first row that shows a server.
    pub open spec fn row_of_server(self, addr: Option<IpAddr>) -> Option<int> {
        search::first(self.cached_servers@, |s: ServerAgg| s.addr == addr)
    }

    /// The server in a row.
    pub open spec fn server_in_row(self, row: int) -> Option<ServerAgg> {
        if 0 <= row < self.cached_servers@.len() {
            Some(self.cached_servers@[row])
        } else {
            None
        }
    }

    /// The state before the first snapshot.
    pub fn new(history: usize, units: UnitsMode, interval: u64, sort: SortKey, filter: String) -> (r: Self)
        ensures
            r.wf(),
            r.tab == Tab::Servers,
            r.selected == 0,
            r.server_selected == 0,
            r.selected_mount_key is None,
            r.selected_server_key is None,
            r.selected_op_key is None,
            !r.paused,
            r.filter == filter,
            r.filter_lower@ == text::lowercase(filter@),
            r.sort == sort,
            r.units == units,
            r.interval == interval,
            r.snapshot is None,
            r.read_hist@.len() == 0,
            r.write_hist@.len() == 0,
            r.ops_hist@.len() == 0,
            r.rtt_hist@.len() == 0,
            r.cumulative_read_bytes == binary64::zero(),
            r.cumulative_write_bytes == binary64::zero(),
            r.last_error is None,
            r.last_sample is None,
            r.percentile_mode == PercentileMode::All,
            r.history_len == history,
            r.mount_histories.entries@.len() == 0,
            r.server_histories.entries@.len() == 0,
            r.cached_visible_idx@.len() == 0,
            r.cached_servers@.len() == 0,
    {
        let filter_lower: String = to_lowercase(filter.as_str());
        let r: App = App {
            tab: Tab::Servers,
            selected: 0,
            server_selected: 0,
            selected_mount_key: None,
            selected_server_key: None,
            selected_op_key: None,
            paused: false,
            filter,
            filter_lower,
            sort,
            units,
            interval,
            snapshot: None,
            read_hist: RingBuf::new(history),
            write_hist: RingBuf::new(history),
            ops_hist: RingBuf::new(history),
            rtt_hist: RingBuf::new(history),
            cumulative_read_bytes: Binary64::zero(),
            cumulative_write_bytes: Binary64::zero(),
            last_error: None,
            last_sample: None,
            percentile_mode: PercentileMode::All,
            history_len: history,
            mount_histories: Table::new(),
            server_histories: Table::new(),
            cached_visible_idx: Vec::new(),
            cached_servers: Vec::new(),
        };
        proof {
            assert(order::arranges(
                passing(r.mounts(), r.filter_lower@),
                r.cached_visible_idx@,
                Seq::empty(),
            ));
            assert(order::arranges(Seq::<ServerAgg>::empty(), r.cached_servers@, Seq::empty()));
            assert(servers::are_aggregates(Seq::empty(), r.mounts()));
        }
        r
    }

    /// Forgets all samples and running totals.
    pub fn reset_baseline(&mut self)
        requires
            old(self).wf(),
        ensures
            final(self).wf(),
            is_reset(*old(self), *final(self)),
    {
        self.read_hist.clear();
        self.write_hist.clear();
        self.ops_hist.clear();
        self.rtt_hist.clear();
        self.cumulative_read_bytes = Binary64::zero();
        self.cumulative_write_bytes = Binary64::zero();
        self.mount_histories.entries.clear();
        self.server_histories.entries.clear();
    }

    /// Whether a mount passes the filter.
    pub fn matches_filter(&self, m: &MountView) -> (r: bool)
        ensures
            r == passes(*m, self.filter_lower@),
    {
        if self.filter_lower.as_str().is_empty() {
            return true;
        }
        matches_text(
            to_lowercase(m.counters.mountpoint.as_str()).as_str(),
            to_lowercase(m.counters.device.as_str()).as_str(),
            self.filter_lower.as_str(),
        )
    }

    /// The indices of the mounts that pass the filter, in the order of the rows.
    fn compute_visible_indices(&self, mounts: &Vec<MountView>) -> (r: Vec<usize>)
        ensures
            order::sorted(
                passing(mounts@, self.filter_lower@),
                r@,
                |i: usize, j: usize| rank::mount_later(mounts@, self.sort, i, j),
            ),
    {
        let mut idx: Vec<usize> = Vec::new();
        let mut i: usize = 0;
        while i < mounts.len()
            invariant
                i <= mounts@.len(),
                idx@ == passing(mounts@.take(i as int), self.filter_lower@),
            decreases mounts@.len() - i,
        {
            assert(mounts@.take(i + 1).drop_last() =~= mounts@.take(i as int));
            if self.matches_filter(&mounts[i]) {
                idx.push(i);
            }
            i = i + 1;
        }
        assert(mounts@.take(i as int) =~= mounts@);
        sort_mounts(&mut idx, mounts, self.sort);
        idx
    }

    /// Adds a sample of the mounts that pass the filter, taken together.
    fn update_global_history(&mut self, snap: &Snapshot)
        requires
            old(self).wf(),
        ensures
            final(self).wf(),
            globally_recorded(*old(self), *final(self), snap.mounts@, snap.dt_secs),
            *final(self) == (App {
                read_hist: final(self).read_hist,
                write_hist: final(self).write_hist,
                ops_hist: final(self).ops_hist,
                rtt_hist: final(self).rtt_hist,
                cumulative_read_bytes: final(self).cumulative_read_bytes,
                cumulative_write_bytes: final(self).cumulative_write_bytes,
                ..*old(self)
            }),
    {
        let mut read_bps: Binary64 = Binary64::zero();
        let mut write_bps: Binary64 = Binary64::zero();
        let mut ops_per_sec: Binary64 = Binary64::zero();
        let mut rtt_ms: Binary64 = Binary64::zero();
        let mut rtt_count: u64 = 0;
        let mut i: usize = 0;
        while i < snap.mounts.len()
            invariant
                *self == *old(self),
                i <= snap.mounts@.len(),
                rtt_count <= i,
                filter_totals(snap.mounts@.take(i as int), self.filter_lower@) == (FilterTotals {
                    read_bps,
                    write_bps,
                    ops_per_sec,
                    rtt_ms,
                    rtt_count: rtt_count as nat,
                }),
            decreases snap.mounts@.len() - i,
        {
            assert(snap.mounts@.take(i + 1).drop_last() =~= snap.mounts@.take(i as int));
            let m: &MountView = &snap.mounts[i];
            if self.matches_filter(m) {
                read_bps = read_bps.plus(m.derived.read_bps);
                write_bps = write_bps.plus(m.derived.write_bps);
                ops_per_sec = ops_per_sec.plus(m.derived.ops_per_sec);
                match m.derived.avg_rtt_ms {
                    Some(rtt) => {
                        rtt_ms = rtt_ms.plus(rtt);
                        rtt_count = rtt_count + 1;
                    },
                    None => {},
                }
            }
            i = i + 1;
        }
        assert(snap.mounts@.take(i as int) =~= snap.mounts@);
        self.read_hist.push(read_bps);
        self.write_hist.push(write_bps);
        self.ops_hist.push(ops_per_sec);
        self.rtt_hist.push(
            if rtt_count > 0 {
                rtt_ms.over(Binary64::from_u64(rtt_count))
            } else {
                Binary64::zero()
            },
        );
        if Binary64::zero().is_less(snap.dt_secs) && snap.dt_secs.is_finite() {
            self.cumulative_read_bytes = self.cumulative_read_bytes.plus(read_bps.times(snap.dt_secs));
            self.cumulative_write_bytes = self.cumulative_write_bytes.plus(
                write_bps.times(snap.dt_secs),
            );
        }
    }

    /// The row of a mountpoint.
    fn position_of_mount(&self, mountpoint: &str) -> (r: Option<usize>)
        ensures
            match r {
                Some(p) => self.row_of_mount(mountpoint@) == Some(p as int),
                None => self.row_of_mount(mountpoint@) is None,
            },
    {
        let ghost p = |i: usize|
            i < self.mounts().len() && self.mounts()[i as int].counters.mountpoint@ == mountpoint@;
        match &self.snapshot {
            Some(snap) => {
                let mut row: usize = 0;
                while row < self.cached_visible_idx.len()
                    invariant
                        self.snapshot == Some(*snap),
                        row <= self.cached_visible_idx@.len(),
                        p == (|i: usize|
                            i < self.mounts().len() && self.mounts()[i as int].counters.mountpoint@
                                == mountpoint@),
                        forall|j: int| 0 <= j < row ==> !p(#[trigger] self.cached_visible_idx@[j]),
                    decreases self.cached_visible_idx@.len() - row,
                {
                    let i: usize = self.cached_visible_idx[row];
                    if i < snap.mounts.len() && same(
                        snap.mounts[i].counters.mountpoint.as_str(),
                        mountpoint,
                    ) {
                        proof {
                            search::lemma_first_is(self.cached_visible_idx@, p, row as int);
                        }
                        return Some(row);
                    }
                    row = row + 1;
                }
                proof {
                    search::lemma_first_none(self.cached_visible_idx@, p);
                }
                None
            },
            None => {
                proof {
                    search::lemma_first_none(self.cached_visible_idx@, p);
                }
                None
            },
        }
    }

    /// The row of a server.
    fn position_of_server(&self, addr: Option<IpAddr>) -> (r: Option<usize>)
        ensures
            match r {
                Some(p) => self.row_of_server(addr) == Some(p as int),
                None => self.row_of_server(addr) is None,
            },
    {
        let ghost p = |s: ServerAgg| s.addr == addr;
        let mut row: usize = 0;
        while row < self.cached_servers.len()
            invariant
                row <= self.cached_servers@.len(),
                p == (|s: ServerAgg| s.addr == addr),
                forall|j: int| 0 <= j < row ==> !p(#[trigger] self.cached_servers@[j]),
            decreases self.cached_servers@.len() - row,
        {
            if self.cached_servers[row].addr.same_key(&addr) {
                proof {
                    search::lemma_first_is(self.cached_servers@, p, row as int);
                }
                return Some(row);
            }
            row = row + 1;
        }
        proof {
            search::lemma_first_none(self.cached_servers@, p);
        }
        None
    }

    /// The mount in the selected row.
    pub fn selected_mount(&self) -> (r: Option<&MountView>)
        ensures
            r == match self.mount_in_row(self.selected as int) {
                Some(m) => Some(&m),
                None => None,
            },
    {
        match &self.snapshot {
            Some(snap) => if self.selected < self.cached_visible_idx.len() {
                let i: usize = self.cached_visible_idx[self.selected];
                if i < snap.mounts.len() {
                    Some(&snap.mounts[i])
                } else {
                    None
                }
            } else {
                None
            },
            None => None,
        }
    }

    /// The mountpoint in the selected row.
    fn current_mount_key(&self) -> (r: Option<String>)
        ensures
            r == match self.mount_in_row(self.selected as int) {
                Some(m) => Some(m.counters.mountpoint),
                None => None,
            },
    {
        match self.selected_mount() {
            Some(m) => Some(m.counters.mountpoint.clone()),
            None => None,
        }
    }

    /// The server in the selected row.
    pub fn selected_server(&self) -> (r: Option<&ServerAgg>)
        ensures
            r == match self.server_in_row(self.server_selected as int) {
                Some(s) => Some(&s),
                None => None,
            },
    {
        if self.server_selected < self.cached_servers.len() {
            Some(&self.cached_servers[self.server_selected])
        } else {
            None
        }
    }

    /// Moves the selections to the rows that now show the mount and the server they stood on.
    /// Where one is not shown, the selection stays at its row, or goes to the last one, and takes
    /// its key from there.
    fn resync_selections(&mut self)
        ensures
            resynced(*old(self), *final(self)),
            old(self).wf() ==> final(self).wf(),
    {
        let mount_row: Option<usize> = match &self.selected_mount_key {
            Some(k) => self.position_of_mount(k.as_str()),
            None => None,
        };
        match mount_row {
            Some(pos) => {
                self.selected = pos;
            },
            None => {
                let last: usize = self.cached_visible_idx.len().saturating_sub(1);
                if self.selected > last {
                    self.selected = last;
                }
                self.selected_mount_key = self.current_mount_key();
            },
        }
        let server_row: Option<usize> = match self.selected_server_key {
            Some(k) => self.position_of_server(k),
            None => None,
        };
        match server_row {
            Some(pos) => {
                self.server_selected = pos;
            },
            None => {
                let last: usize = self.cached_servers.len().saturating_sub(1);
                if self.server_selected > last {
                    self.server_selected = last;
                }
                self.selected_server_key = match self.selected_server() {
                    Some(s) => Some(s.addr),
                    None => None,
                };
            },
        }
    }

    /// Takes in a snapshot, unless paused.
    pub fn ingest(&mut self, snap: Snapshot)
        requires
            old(self).wf(),
            old(self).paused || servers::conns_fit(snap.mounts@),
        ensures
            final(self).wf(),
            old(self).paused ==> *final(self) == *old(self),
            !old(self).paused ==> ingested(*old(self), *final(self), snap),
    {
        if self.paused {
            return;
        }
        self.update_global_history(&snap);
        record_mounts(&mut self.mount_histories, self.history_len, &snap.mounts);
        self.cached_servers = aggregate_servers_from(&snap.mounts, self.sort);
        record_servers(&mut self.server_histories, self.history_len, &self.cached_servers);
        self.cached_visible_idx = self.compute_visible_indices(&snap.mounts);
        self.last_sample = Some(snap.ts);
        self.snapshot = Some(snap);
        let ghost mid = *self;
        proof {
            let later = |i: usize, j: usize| rank::mount_later(snap.mounts@, mid.sort, i, j);
            let before = passing(snap.mounts@, mid.filter_lower@);
            let perm = choose|perm: Seq<int>|
                #[trigger] order::arranges(before, mid.cached_visible_idx@, perm) && (order::orders(
                    before,
                    later,
                ) ==> order::in_order(mid.cached_visible_idx@, perm, later));
            assert(rearranged(before, mid.cached_visible_idx@));
            lemma_sorted_shows_servers(mid.cached_servers@, snap.mounts@, mid.sort);
            assert(mid.wf());
        }
        self.resync_selections();
        proof {
            assert(mid == (App {
                selected: old(self).selected,
                server_selected: old(self).server_selected,
                selected_mount_key: old(self).selected_mount_key,
                selected_server_key: old(self).selected_server_key,
                ..*self
            }));
        }
    }

    /// Goes on to the next sort key and sorts the rows by it.
    pub fn cycle_sort(&mut self)
        requires
            old(self).wf(),
        ensures
            final(self).wf(),
            resorted(*old(self), *final(self), SortKey::at(old(self).sort.position() + 1)),
    {
        let sort: SortKey = self.sort.next();
        self.sort = sort;
        match &self.snapshot {
            Some(snap) => {
                sort_mounts(&mut self.cached_visible_idx, &snap.mounts, sort);
            },
            None => {},
        }
        sort_servers(&mut self.cached_servers, sort);
        let ghost mid = *self;
        proof {
            let before = passing(mid.mounts(), mid.filter_lower@);
            if mid.snapshot is Some {
                lemma_sorted_rearranged(
                    before,
                    old(self).cached_visible_idx@,
                    mid.cached_visible_idx@,
                    |i: usize, j: usize| rank::mount_later(mid.mounts(), sort, i, j),
                );
            }
            let aggs = choose|aggs: Seq<ServerAgg>| #[trigger]
                servers::are_aggregates(aggs, mid.mounts()) && rearranged(
                    aggs,
                    old(self).cached_servers@,
                );
            lemma_sorted_rearranged(
                aggs,
                old(self).cached_servers@,
                mid.cached_servers@,
                |a: ServerAgg, b: ServerAgg| rank::server_rank(a, b, sort) > 0,
            );
            assert(mid.wf());
        }
        self.resync_selections();
        proof {
            assert(mid == (App {
                selected: old(self).selected,
                server_selected: old(self).server_selected,
                selected_mount_key: old(self).selected_mount_key,
                selected_server_key: old(self).selected_server_key,
                ..*self
            }));
        }
    }

    /// Moves the selection among the mounts by `delta` rows, up where that is negative.
    pub fn move_mount_selection(&mut self, delta: i32)
        ensures
            mount_moved(*old(self), *final(self), delta),
            old(self).wf() ==> final(self).wf(),
    {
        self.selected = step_index(self.selected, delta, self.cached_visible_idx.len());
        self.selected_mount_key = self.current_mount_key();
    }

    /// Moves the selection among the servers by `delta` rows, up where that is negative.
    pub fn move_server_selection(&mut self, delta: i32)
        ensures
            server_moved(*old(self), *final(self), delta),
            old(self).wf() ==> final(self).wf(),
    {
        self.server_selected = step_index(self.server_selected, delta, self.cached_servers.len());
        self.selected_server_key = match self.selected_server() {
            Some(s) => Some(s.addr),
            None => None,
        };
    }

    /// The latencies of the selected mount.
    pub open spec fn bpf(self) -> Option<BpfLatency> {
        match self.mount_in_row(self.selected as int) {
            Some(m) => m.derived.bpf,
            None => None,
        }
    }

    /// The latencies of the selected mount.
    pub fn selected_mount_bpf(&self) -> (r: Option<&BpfLatency>)
        ensures
            r == match self.bpf() {
                Some(b) => Some(&b),
                None => None,
            },
    {
        match self.selected_mount() {
            Some(m) => m.derived.bpf.as_ref(),
            None => None,
        }
    }

    /// The row of the selected kind of call, and its latencies; the first row where none is
    /// selected or the selected one has no samples. None where there are no samples at all.
    pub fn selected_bpf_op(&self) -> (r: Option<(usize, &BpfOpLatency)>)
        ensures
            match self.bpf() {
                Some(b) => if b.per_op@.len() == 0 {
                    r is None
                } else {
                    r matches Some((row, op)) && row == op_row(b.per_op@, self.selected_op_key)
                        && row < b.per_op@.len() && *op == b.per_op@[row as int]
                },
                None => r is None,
            },
    {
        match self.selected_mount_bpf() {
            Some(b) => {
                if b.per_op.len() == 0 {
                    return None;
                }
                let row: usize = find_op_row(&b.per_op, &self.selected_op_key);
                Some((row, &b.per_op[row]))
            },
            None => None,
        }
    }

    /// Moves the selection among the kinds of calls by `delta` rows, up where that is negative;
    /// does nothing where the selected mount has no samples.
    pub fn move_hist_selection(&mut self, delta: i32)
        ensures
            op_moved(*old(self), *final(self), delta),
            old(self).wf() ==> final(self).wf(),
    {
        let key: Option<String> = match self.selected_mount_bpf() {
            Some(b) => {
                if b.per_op.len() == 0 {
                    return;
                }
                let row: usize = find_op_row(&b.per_op, &self.selected_op_key);
                let next: usize = step_index(row, delta, b.per_op.len());
                Some(b.per_op[next].op.clone())
            },
            None => {
                return;
            },
        };
        self.selected_op_key = key;
    }

    /// The mounts that are shown, in the order of the rows.
    pub fn visible_mounts(&self) -> (r: Vec<&MountView>)
        ensures
            r@ == shown(self.mounts(), self.cached_visible_idx@),
    {
        let mut r: Vec<&MountView> = Vec::new();
        match &self.snapshot {
            Some(snap) => {
                let mut row: usize = 0;
                while row < self.cached_visible_idx.len()
                    invariant
                        self.snapshot == Some(*snap),
                        row <= self.cached_visible_idx@.len(),
                        r@ == shown(self.mounts(), self.cached_visible_idx@.take(row as int)),
                    decreases self.cached_visible_idx@.len() - row,
                {
                    let i: usize = self.cached_visible_idx[row];
                    if i < snap.mounts.len() {
                        r.push(&snap.mounts[i]);
                    }
                    row = row + 1;
                    assert(self.cached_visible_idx@.take(row as int).drop_last()
                        =~= self.cached_visible_idx@.take(row - 1));
                }
                assert(self.cached_visible_idx@.take(row as int) =~= self.cached_visible_idx@);
            },
            None => {
                proof {
                    lemma_nothing_shown(self.cached_visible_idx@);
                }
            },
        }
        r
    }

    /// The latest samples of the selected mount.
    pub fn selected_mount_history(&self) -> (r: Option<&MountHistory>)
        ensures
            r == match self.mount_in_row(self.selected as int) {
                Some(m) => match table::lookup(self.mount_histories.entries@, m.counters.mountpoint@) {
                    Some(h) => Some(&h),
                    None => None,
                },
                None => None,
            },
    {
        match self.selected_mount() {
            Some(m) => self.mount_histories.get(&m.counters.mountpoint),
            None => None,
        }
    }

    /// The servers, in the order of the rows.
    pub fn aggregate_servers(&self) -> (r: &[ServerAgg])
        ensures
            r@ == self.cached_servers@,
    {
        self.cached_servers.as_slice()
    }

    /// The latest samples of the selected server.
    pub fn selected_server_history(&self) -> (r: Option<&ServerHistory>)
        ensures
            r == match self.server_in_row(self.server_selected as int) {
                Some(s) => match table::lookup(self.server_histories.entries@, s.addr) {
                    Some(h) => Some(&h),
                    None => None,
                },
                None => None,
            },
    {
        match self.selected_server() {
            Some(s) => self.server_histories.get(&s.addr),
            None => None,
        }
    }

    /// The time between samples, in milliseconds.
    pub fn interval_ms(&self) -> (r: u64)
        ensures
            r == self.interval,
    {
        self.interval
    }

    /// Makes the time between samples a tenth of a second longer, up to ten seconds.
    pub fn increase_interval(&mut self)
        ensures
            final(self).interval == longer(old(self).interval),
            *final(self) == (App { interval: final(self).interval, ..*old(self) }),
            old(self).wf() ==> final(self).wf(),
    {
        let next: u64 = self.interval.saturating_add(100);
        self.interval = if next < 10_000 {
            next
        } else {
            10_000
        };
    }

    /// Makes the time between samples a tenth of a second shorter, down to a tenth of a second.
    pub fn decrease_interval(&mut self)
        ensures
            final(self).interval == shorter(old(self).interval),
            *final(self) == (App { interval: final(self).interval, ..*old(self) }),
            old(self).wf() ==> final(self).wf(),
    {
        let next: u64 = self.interval.saturating_sub(100);
        self.interval = if next > 100 {
            next
        } else {
            100
        };
    }
}

/// Whether all samples and running totals are forgotten, and nothing else has changed.
pub open spec fn is_reset(old: App, new: App) -> bool {
    &&& new.read_hist@.len() == 0
    &&& new.write_hist@.len() == 0
    &&& new.ops_hist@.len() == 0
    &&& new.rtt_hist@.len() == 0
    &&& new.cumulative_read_bytes == binary64::zero()
    &&& new.cumulative_write_bytes == binary64::zero()
    &&& new.mount_histories.entries@.len() == 0
    &&& new.server_histories.entries@.len() == 0
    &&& new == (App {
        read_hist: new.read_hist,
        write_hist: new.write_hist,
        ops_hist: new.ops_hist,
        rtt_hist: new.rtt_hist,
        cumulative_read_bytes: new.cumulative_read_bytes,
        cumulative_write_bytes: new.cumulative_write_bytes,
        mount_histories: new.mount_histories,
        server_histories: new.server_histories,
        ..old
    })
}

/// Whether the selection among the mounts has moved by `delta` rows and holds the mountpoint of
/// its new row, and nothing else has changed.
pub open spec fn mount_moved(old: App, new: App, delta: i32) -> bool {
    &&& new.selected == stepped(old.selected, delta, old.cached_visible_idx@.len() as usize)
    &&& new.selected_mount_key == match old.mount_in_row(new.selected as int) {
        Some(m) => Some(m.counters.mountpoint),
        None => None,
    }
    &&& new == (App { selected: new.selected, selected_mount_key: new.selected_mount_key, ..old })
}

/// Whether the selection among the servers has moved by `delta` rows and holds the address of
/// its new row, and nothing else has changed.
pub open spec fn server_moved(old: App, new: App, delta: i32) -> bool {
    &&& new.server_selected == stepped(
        old.server_selected,
        delta,
        old.cached_servers@.len() as usize,
    )
    &&& new.selected_server_key == match old.server_in_row(new.server_selected as int) {
        Some(s) => Some(s.addr),
        None => None,
    }
    &&& new == (App {
        server_selected: new.server_selected,
        selected_server_key: new.selected_server_key,
        ..old
    })
}

/// Whether the selection among the kinds of calls has moved by `delta` rows, where the selected
/// mount has any, and nothing else has changed.
pub open spec fn op_moved(old: App, new: App, delta: i32) -> bool {
    &&& new == (App { selected_op_key: new.selected_op_key, ..old })
    &&& match old.bpf() {
        Some(b) => if b.per_op@.len() == 0 {
            new.selected_op_key == old.selected_op_key
        } else {
            new.selected_op_key == Some(
                b.per_op@[stepped(
                    op_row(b.per_op@, old.selected_op_key) as usize,
                    delta,
                    b.per_op@.len() as usize,
                ) as int].op,
            )
        },
        None => new.selected_op_key == old.selected_op_key,
    }
}

/// A time between samples made a tenth of a second longer, up to ten seconds.
pub open spec fn longer(ms: u64) -> u64 {
    if ms + 100 < 10_000 {
        (ms + 100) as u64
    } else {
        10_000
    }
}

/// A time between samples made a tenth of a second shorter, down to a tenth of a second.
pub open spec fn shorter(ms: u64) -> u64 {
    if ms > 200 {
        (ms - 100) as u64
    } else {
        100
    }
}

/// The time between samples is never made longer than ten seconds nor shorter than a tenth of a
/// second, and between these bounds each step undoes the other.
pub proof fn law_interval(ms: u64)
    ensures
        longer(ms) <= 10_000,
        shorter(ms) >= 100,
        100 <= ms <= 9_900 ==> shorter(longer(ms)) == ms,
        200 <= ms <= 10_000 ==> longer(shorter(ms)) == ms,
{
}

/// The row of a kind of call; the first where none is given or it has no samples.
pub open spec fn op_row(per_op: Seq<BpfOpLatency>, key: Option<String>) -> int {
    match key {
        Some(k) => match search::first(per_op, |o: BpfOpLatency| o.op@ == k@) {
            Some(i) => i,
            None => 0,
        },
        None => 0,
    }
}

/// The row of a kind of call.
fn find_op_row(per_op: &Vec<BpfOpLatency>, key: &Option<String>) -> (r: usize)
    requires
        per_op@.len() > 0,
    ensures
        r == op_row(per_op@, *key),
        r < per_op@.len(),
{
    match key {
        Some(k) => {
            let ghost p = |o: BpfOpLatency| o.op@ == k@;
            let mut i: usize = 0;
            while i < per_op.len()
                invariant
                    *key == Some(*k),
                    p == (|o: BpfOpLatency| o.op@ == k@),
                    i <= per_op@.len(),
                    forall|j: int| 0 <= j < i ==> !p(#[trigger] per_op@[j]),
                decreases per_op@.len() - i,
            {
                if same(per_op[i].op.as_str(), k.as_str()) {
                    proof {
                        search::lemma_first_is(per_op@, p, i as int);
                    }
                    return i;
                }
                i = i + 1;
            }
            proof {
                search::lemma_first_none(per_op@, p);
            }
            0
        },
        None => 0,
    }
}

/// The mounts at some indices, those out of range left out.
pub open spec fn shown<'a>(mounts: Seq<MountView>, idx: Seq<usize>) -> Seq<&'a MountView>
    decreases idx.len(),
{
    if idx.len() == 0 {
        Seq::empty()
    } else if idx.last() < mounts.len() {
        shown(mounts, idx.drop_last()).push(&mounts[idx.last() as int])
    } else {
        shown(mounts, idx.drop_last())
    }
}

proof fn lemma_nothing_shown(idx: Seq<usize>)
    ensures
        shown(Seq::empty(), idx).len() == 0,
    decreases idx.len(),
{
    if idx.len() > 0 {
        lemma_nothing_shown(idx.drop_last());
    }
}

/// What a snapshot changes.
pub open spec fn ingested(old: App, new: App, snap: Snapshot) -> bool {
    let cap = old.history_len as nat;
    &&& globally_recorded(old, new, snap.mounts@, snap.dt_secs)
    &&& history::mount_trends(new.mount_histories.entries@) == history::mounts_recorded(
        history::mount_trends(old.mount_histories.entries@),
        cap,
        snap.mounts@,
    )
    &&& servers::are_sorted_aggregates(new.cached_servers@, snap.mounts@, old.sort)
    &&& history::server_trends(new.server_histories.entries@) == history::servers_recorded(
        history::server_trends(old.server_histories.entries@),
        cap,
        new.cached_servers@,
    )
    &&& order::sorted(
        passing(snap.mounts@, old.filter_lower@),
        new.cached_visible_idx@,
        |i: usize, j: usize| rank::mount_later(snap.mounts@, old.sort, i, j),
    )
    &&& new.last_sample == Some(snap.ts)
    &&& new.snapshot == Some(snap)
    &&& resynced(
        App {
            selected: old.selected,
            server_selected: old.server_selected,
            selected_mount_key: old.selected_mount_key,
            selected_server_key: old.selected_server_key,
            ..new
        },
        new,
    )
    &&& new == (App {
        selected: new.selected,
        server_selected: new.server_selected,
        selected_mount_key: new.selected_mount_key,
        selected_server_key: new.selected_server_key,
        snapshot: new.snapshot,
        read_hist: new.read_hist,
        write_hist: new.write_hist,
        ops_hist: new.ops_hist,
        rtt_hist: new.rtt_hist,
        cumulative_read_bytes: new.cumulative_read_bytes,
        cumulative_write_bytes: new.cumulative_write_bytes,
        last_sample: new.last_sample,
        mount_histories: new.mount_histories,
        server_histories: new.server_histories,
        cached_visible_idx: new.cached_visible_idx,
        cached_servers: new.cached_servers,
        ..old
    })
}

/// What sorting by a key changes.
pub open spec fn resorted(old: App, new: App, sort: SortKey) -> bool {
    &&& new.sort == sort
    &&& if old.snapshot is Some {
        order::sorted(
            old.cached_visible_idx@,
            new.cached_visible_idx@,
            |i: usize, j: usize| rank::mount_later(old.mounts(), sort, i, j),
        )
    } else {
        new.cached_visible_idx == old.cached_visible_idx
    }
    &&& order::sorted(
        old.cached_servers@,
        new.cached_servers@,
        |a: ServerAgg, b: ServerAgg| rank::server_rank(a, b, sort) > 0,
    )
    &&& resynced(
        App {
            selected: old.selected,
            server_selected: old.server_selected,
            selected_mount_key: old.selected_mount_key,
            selected_server_key: old.selected_server_key,
            ..new
        },
        new,
    )
    &&& new == (App {
        sort: new.sort,
        selected: new.selected,
        server_selected: new.server_selected,
        selected_mount_key: new.selected_mount_key,
        selected_server_key: new.selected_server_key,
        cached_visible_idx: new.cached_visible_idx,
        cached_servers: new.cached_servers,
        ..old
    })
}

proof fn lemma_rearranged_twice<T>(a: Seq<T>, b: Seq<T>, c: Seq<T>)
    requires
        rearranged(a, b),
        rearranged(b, c),
    ensures
        rearranged(a, c),
{
    let p = choose|p: Seq<int>| order::arranges(a, b, p);
    let q = choose|q: Seq<int>| order::arranges(b, c, q);
    let r = Seq::new(q.len(), |i: int| p[q[i]]);
    assert forall|i: int| 0 <= i < r.len() implies 0 <= #[trigger] r[i] < a.len() && c[i] == a[r[i]] by {
        assert(0 <= q[i] < b.len());
        assert(c[i] == b[q[i]]);
        assert(b[q[i]] == a[p[q[i]]]);
    }
    assert forall|i: int, j: int| 0 <= i < j < r.len() implies #[trigger] r[i] != #[trigger] r[j] by {
        assert(q[i] != q[j]);
        if q[i] < q[j] {
            assert(p[q[i]] != p[q[j]]);
        } else {
            assert(p[q[j]] != p[q[i]]);
        }
    }
    assert(order::arranges(a, c, r));
}

proof fn lemma_sorted_rearranged<T>(a: Seq<T>, b: Seq<T>, c: Seq<T>, later: spec_fn(T, T) -> bool)
    requires
        rearranged(a, b),
        order::sorted(b, c, later),
    ensures
        rearranged(a, c),
{
    let perm = choose|perm: Seq<int>|
        #[trigger] order::arranges(b, c, perm) && (order::orders(b, later) ==> order::in_order(
            c,
            perm,
            later,
        ));
    assert(order::arranges(b, c, perm));
    lemma_rearranged_twice(a, b, c);
}

proof fn lemma_sorted_shows_servers(aggs: Seq<ServerAgg>, mounts: Seq<MountView>, sort: SortKey)
    requires
        servers::are_sorted_aggregates(aggs, mounts, sort),
    ensures
        shows_servers(aggs, mounts),
{
    let later = |a: ServerAgg, b: ServerAgg| rank::server_rank(a, b, sort) > 0;
    let unsorted = choose|unsorted: Seq<ServerAgg>|
        #[trigger] servers::are_aggregates(unsorted, mounts) && order::sorted(unsorted, aggs, later);
    let perm = choose|perm: Seq<int>|
        #[trigger] order::arranges(unsorted, aggs, perm) && (order::orders(unsorted, later)
            ==> order::in_order(aggs, perm, later));
    assert(rearranged(unsorted, aggs));
}

/// The samples of all mounts that pass the filter and the running totals, with one more sample.
pub open spec fn globally_recorded(old: App, new: App, mounts: Seq<MountView>, dt: Binary64) -> bool {
    let t = filter_totals(mounts, old.filter_lower@);
    let cap = old.history_len as nat;
    &&& new.read_hist@ == ringbuf::pushed(old.read_hist@, cap, t.read_bps)
    &&& new.write_hist@ == ringbuf::pushed(old.write_hist@, cap, t.write_bps)
    &&& new.ops_hist@ == ringbuf::pushed(old.ops_hist@, cap, t.ops_per_sec)
    &&& new.rtt_hist@ == ringbuf::pushed(old.rtt_hist@, cap, mean_rtt(t))
    &&& new.cumulative_read_bytes == grown(old.cumulative_read_bytes, t.read_bps, dt)
    &&& new.cumulative_write_bytes == grown(old.cumulative_write_bytes, t.write_bps, dt)
}

/// A row, or the last one of so many where it is past that.
pub open spec fn clamped(row: usize, len: nat) -> int {
    if len == 0 {
        0
    } else if row >= len {
        len - 1
    } else {
        row as int
    }
}

/// Whether the selections have moved to the rows of their keys, and nothing else has changed.
pub open spec fn resynced(old: App, new: App) -> bool {
    let row = match old.selected_mount_key {
        Some(k) => old.row_of_mount(k@),
        None => None,
    };
    let server_row = match old.selected_server_key {
        Some(k) => old.row_of_server(k),
        None => None,
    };
    &&& match row {
        Some(p) => new.selected == p && new.selected_mount_key == old.selected_mount_key,
        None => {
            &&& new.selected == clamped(old.selected, old.cached_visible_idx@.len())
            &&& new.selected_mount_key == match new.mount_in_row(new.selected as int) {
                Some(m) => Some(m.counters.mountpoint),
                None => None,
            }
        },
    }
    &&& match server_row {
        Some(p) => new.server_selected == p && new.selected_server_key == old.selected_server_key,
        None => {
            &&& new.server_selected == clamped(old.server_selected, old.cached_servers@.len())
            &&& new.selected_server_key == match new.server_in_row(new.server_selected as int) {
                Some(s) => Some(s.addr),
                None => None,
            }
        },
    }
    &&& new == (App {
        selected: new.selected,
        server_selected: new.server_selected,
        selected_mount_key: new.selected_mount_key,
        selected_server_key: new.selected_server_key,
        ..old
    })
}

/// The indices of the mounts that pass the filter: in range, ascending, and all of them.
pub(crate) proof fn lemma_passing(mounts: Seq<MountView>, filter: Seq<char>)
    requires
        mounts.len() <= usize::MAX,
    ensures
        forall|k: int|
            0 <= k < passing(mounts, filter).len() ==> #[trigger] passing(mounts, filter)[k]
                < mounts.len() && passes(mounts[passing(mounts, filter)[k] as int], filter),
        forall|k: int, l: int|
            0 <= k < l < passing(mounts, filter).len() ==> #[trigger] passing(mounts, filter)[k]
                < #[trigger] passing(mounts, filter)[l],
        forall|i: int|
            0 <= i < mounts.len() && passes(#[trigger] mounts[i], filter) ==> passing(
                mounts,
                filter,
            ).contains(i as usize),
    decreases mounts.len(),
{
    if mounts.len() > 0 {
        let front = mounts.drop_last();
        lemma_passing(front, filter);
        let rest = passing(front, filter);
        let all = passing(mounts, filter);
        assert forall|k: int| 0 <= k < all.len() implies #[trigger] all[k] < mounts.len() && passes(
            mounts[all[k] as int],
            filter,
        ) by {
            if k < rest.len() {
                assert(all[k] == rest[k]);
                assert(front[rest[k] as int] == mounts[rest[k] as int]);
            }
        }
        assert forall|k: int, l: int| 0 <= k < l < all.len() implies #[trigger] all[k]
            < #[trigger] all[l] by {
            assert(all[k] == rest[k]);
            if l < rest.len() {
                assert(all[l] == rest[l]);
            }
        }
        assert forall|i: int| 0 <= i < mounts.len() && passes(#[trigger] mounts[i], filter) implies all.contains(
            i as usize,
        ) by {
            if i < front.len() {
                assert(front[i] == mounts[i]);
                let k = choose|k: int| 0 <= k < rest.len() && rest[k] == i as usize;
                assert(all[k] == i as usize);
            } else {
                assert(all[rest.len() as int] == i as usize);
            }
        }
    }
}

/// The rows show exactly the mounts of the snapshot that pass the filter, each once.
pub proof fn law_rows_pass_filter(app: App)
    requires
        app.wf(),
        app.mounts().len() <= usize::MAX,
    ensures
        forall|row: int|
            0 <= row < app.cached_visible_idx@.len() ==> (#[trigger] app.mount_in_row(row) matches Some(
                m,
            ) && passes(m, app.filter_lower@)),
        forall|a: int, b: int|
            0 <= a < b < app.cached_visible_idx@.len() ==> #[trigger] app.cached_visible_idx@[a]
                != #[trigger] app.cached_visible_idx@[b],
        forall|i: int|
            0 <= i < app.mounts().len() && passes(#[trigger] app.mounts()[i], app.filter_lower@)
                ==> app.cached_visible_idx@.contains(i as usize),
{
    let mounts = app.mounts();
    let before = passing(mounts, app.filter_lower@);
    let after = app.cached_visible_idx@;
    lemma_passing(mounts, app.filter_lower@);
    let perm = choose|perm: Seq<int>| order::arranges(before, after, perm);
    assert forall|row: int| 0 <= row < after.len() implies (#[trigger] app.mount_in_row(row) matches Some(
        m,
    ) && passes(m, app.filter_lower@)) by {
        assert(0 <= perm[row] < before.len());
        assert(after[row] == before[perm[row]]);
    }
    assert forall|a: int, b: int| 0 <= a < b < after.len() implies #[trigger] after[a]
        != #[trigger] after[b] by {
        assert(after[a] == before[perm[a]] && after[b] == before[perm[b]]);
        assert(perm[a] != perm[b]);
        assert(0 <= perm[a] < before.len() && 0 <= perm[b] < before.len());
    }
    assert forall|i: int| 0 <= i < mounts.len() && passes(#[trigger] mounts[i], app.filter_lower@) implies after.contains(
        i as usize,
    ) by {
        let k = choose|k: int| 0 <= k < before.len() && before[k] == i as usize;
        order::lemma_covers(perm, before.len(), k);
        let row = choose|row: int| 0 <= row < before.len() && #[trigger] perm[row] == k;
        assert(after[row] == before[perm[row]]);
    }
}

/// A selection follows its mount and its server to the rows that show them after sorting, and
/// is at a row in range where there are any.
pub proof fn law_selection_follows(old: App, new: App)
    requires
        resynced(old, new),
    ensures
        old.selected_mount_key matches Some(k) ==> (old.row_of_mount(k@) is Some ==> (
        new.mount_in_row(new.selected as int) matches Some(m) && m.counters.mountpoint@ == k@)),
        old.selected_server_key matches Some(k) ==> (old.row_of_server(k) is Some ==> (
        new.server_in_row(new.server_selected as int) matches Some(s) && s.addr == k)),
        new.cached_visible_idx@.len() > 0 ==> new.selected < new.cached_visible_idx@.len(),
        new.cached_servers@.len() > 0 ==> new.server_selected < new.cached_servers@.len(),
{
    if let Some(k) = old.selected_mount_key {
        search::lemma_first(
            old.cached_visible_idx@,
            |i: usize| i < old.mounts().len() && old.mounts()[i as int].counters.mountpoint@ == k@,
        );
    }
    if let Some(k) = old.selected_server_key {
        search::lemma_first(old.cached_servers@, |s: ServerAgg| s.addr == k);
    }
}

/// A snapshot that still shows the selected mount, or a mount of the selected server, leaves the
/// selection on it.
pub proof fn law_ingest_keeps_selection(old: App, new: App, snap: Snapshot, i: int)
    requires
        ingested(old, new, snap),
        new.wf(),
        0 <= i < snap.mounts@.len() <= usize::MAX,
    ensures
        old.selected_mount_key matches Some(k) ==> (snap.mounts@[i].counters.mountpoint@ == k@ && passes(
            snap.mounts@[i],
            old.filter_lower@,
        ) ==> (new.mount_in_row(new.selected as int) matches Some(m) && m.counters.mountpoint@ == k@
            && new.selected_mount_key == old.selected_mount_key)),
        old.selected_server_key matches Some(k) ==> (snap.mounts@[i].counters.addr == k ==> (
        new.server_in_row(new.server_selected as int) matches Some(s) && s.addr == k
            && new.selected_server_key == old.selected_server_key)),
{
    let mid = App {
        selected: old.selected,
        server_selected: old.server_selected,
        selected_mount_key: old.selected_mount_key,
        selected_server_key: old.selected_server_key,
        ..new
    };
    assert(resynced(mid, new));
    law_selection_follows(mid, new);
    if let Some(k) = old.selected_mount_key {
        if snap.mounts@[i].counters.mountpoint@ == k@ && passes(snap.mounts@[i], old.filter_lower@) {
            law_rows_pass_filter(new);
            assert(passes(new.mounts()[i], new.filter_lower@));
            let row = choose|row: int|
                0 <= row < new.cached_visible_idx@.len() && new.cached_visible_idx@[row] == i as usize;
            let p = |j: usize|
                j < mid.mounts().len() && mid.mounts()[j as int].counters.mountpoint@ == k@;
            search::lemma_first(mid.cached_visible_idx@, p);
            assert(p(mid.cached_visible_idx@[row]));
        }
    }
    if let Some(k) = old.selected_server_key {
        if snap.mounts@[i].counters.addr == k {
            lemma_server_shown(new, i);
            let row = choose|row: int|
                0 <= row < new.cached_servers@.len() && (#[trigger] new.cached_servers@[row]).addr == k;
            let p = |s: ServerAgg| s.addr == k;
            search::lemma_first(mid.cached_servers@, p);
            assert(p(mid.cached_servers@[row]));
        }
    }
}

/// The server of a mount is in a row.
proof fn lemma_server_shown(app: App, i: int)
    requires
        app.wf(),
        0 <= i < app.mounts().len(),
    ensures
        exists|row: int|
            0 <= row < app.cached_servers@.len() && (#[trigger] app.cached_servers@[row]).addr
                == app.mounts()[i].counters.addr,
{
    let addr = app.mounts()[i].counters.addr;
    let aggs = choose|aggs: Seq<ServerAgg>| #[trigger]
        servers::are_aggregates(aggs, app.mounts()) && rearranged(aggs, app.cached_servers@);
    let perm = choose|perm: Seq<int>| order::arranges(aggs, app.cached_servers@, perm);
    servers::law_addresses(app.mounts());
    let addrs = servers::addresses(app.mounts());
    assert(addrs.contains(app.mounts()[i].counters.addr));
    let a = choose|a: int| 0 <= a < addrs.len() && addrs[a] == addr;
    assert(servers::is_aggregate(aggs[a], addrs[a], servers::mounts_of(app.mounts(), addrs[a])));
    order::lemma_covers(perm, aggs.len(), a);
    let row = choose|row: int| 0 <= row < aggs.len() && #[trigger] perm[row] == a;
    assert(app.cached_servers@[row] == aggs[perm[row]]);
}

/// Sorting by the next key leaves the selections on the mount and the server that they are on.
pub proof fn law_sort_keeps_selection(old: App, new: App, sort: SortKey)
    requires
        resorted(old, new, sort),
    ensures
        old.selected_mount_key matches Some(k) ==> (old.row_of_mount(k@) is Some ==> (
        new.mount_in_row(new.selected as int) matches Some(m) && m.counters.mountpoint@ == k@
            && new.selected_mount_key == old.selected_mount_key)),
        old.selected_server_key matches Some(k) ==> (old.row_of_server(k) is Some ==> (
        new.server_in_row(new.server_selected as int) matches Some(s) && s.addr == k
            && new.selected_server_key == old.selected_server_key)),
{
    let mid = App {
        selected: old.selected,
        server_selected: old.server_selected,
        selected_mount_key: old.selected_mount_key,
        selected_server_key: old.selected_server_key,
        ..new
    };
    assert(resynced(mid, new));
    law_selection_follows(mid, new);
    if let Some(k) = old.selected_mount_key {
        if let Some(r) = old.row_of_mount(k@) {
            let p = |j: usize|
                j < old.mounts().len() && old.mounts()[j as int].counters.mountpoint@ == k@;
            let q = |j: usize|
                j < mid.mounts().len() && mid.mounts()[j as int].counters.mountpoint@ == k@;
            search::lemma_first(old.cached_visible_idx@, p);
            search::lemma_first(mid.cached_visible_idx@, q);
            let later = |i: usize, j: usize| rank::mount_later(old.mounts(), sort, i, j);
            if old.snapshot is Some {
                let row = lemma_sorted_shows(
                    old.cached_visible_idx@,
                    new.cached_visible_idx@,
                    later,
                    r,
                );
                assert(q(mid.cached_visible_idx@[row]));
            } else {
                assert(q(mid.cached_visible_idx@[r]));
            }
        }
    }
    if let Some(k) = old.selected_server_key {
        if let Some(r) = old.row_of_server(k) {
            let p = |s: ServerAgg| s.addr == k;
            search::lemma_first(old.cached_servers@, p);
            search::lemma_first(mid.cached_servers@, p);
            let row = lemma_sorted_shows(
                old.cached_servers@,
                new.cached_servers@,
                |a: ServerAgg, b: ServerAgg| rank::server_rank(a, b, sort) > 0,
                r,
            );
            assert(p(mid.cached_servers@[row]));
        }
    }
}

/// The servers in two rows have two addresses.
pub(crate) proof fn lemma_servers_differ(app: App, a: int, b: int)
    requires
        app.wf(),
        0 <= a < app.cached_servers@.len(),
        0 <= b < app.cached_servers@.len(),
        a != b,
    ensures
        app.cached_servers@[a].addr != app.cached_servers@[b].addr,
{
    let aggs = choose|aggs: Seq<ServerAgg>| #[trigger]
        servers::are_aggregates(aggs, app.mounts()) && rearranged(aggs, app.cached_servers@);
    let perm = choose|perm: Seq<int>| order::arranges(aggs, app.cached_servers@, perm);
    let addrs = servers::addresses(app.mounts());
    servers::law_addresses(app.mounts());
    let i = perm[a];
    let j = perm[b];
    assert(i != j) by {
        if a < b {
            assert(perm[a] != perm[b]);
        } else {
            assert(perm[b] != perm[a]);
        }
    }
    assert(app.cached_servers@[a] == aggs[i] && app.cached_servers@[b] == aggs[j]);
    assert(servers::is_aggregate(aggs[i], addrs[i], servers::mounts_of(app.mounts(), addrs[i])));
    assert(servers::is_aggregate(aggs[j], addrs[j], servers::mounts_of(app.mounts(), addrs[j])));
}

/// Selections that have moved to the rows of their keys stay there, where no two rows show one
/// mountpoint.
pub proof fn law_selection_settles(old: App, mid: App, new: App)
    requires
        resynced(old, mid),
        resynced(mid, new),
        mid.wf(),
        forall|a: int, b: int|
            0 <= a < b < mid.cached_visible_idx@.len() ==> (#[trigger] mid.mount_in_row(a) matches Some(m)
                ==> (#[trigger] mid.mount_in_row(b) matches Some(n) ==> m.counters.mountpoint@
                != n.counters.mountpoint@)),
    ensures
        new == mid,
{
    let row = mid.selected as int;
    if let Some(k) = mid.selected_mount_key {
        let p = |i: usize|
            i < mid.mounts().len() && mid.mounts()[i as int].counters.mountpoint@ == k@;
        search::lemma_first(mid.cached_visible_idx@, p);
        law_selection_follows(old, mid);
        if let Some(j) = old.selected_mount_key {
            search::lemma_first(
                old.cached_visible_idx@,
                |i: usize| i < old.mounts().len() && old.mounts()[i as int].counters.mountpoint@ == j@,
            );
        }
        assert(mid.mount_in_row(row) matches Some(m) && m.counters.mountpoint@ == k@);
        assert(p(mid.cached_visible_idx@[row]));
        let first = mid.row_of_mount(k@)->0;
        if first < row {
            assert(mid.mount_in_row(first) is Some && mid.mount_in_row(row) is Some);
        }
    }
    let server_row = mid.server_selected as int;
    if let Some(k) = mid.selected_server_key {
        let p = |s: ServerAgg| s.addr == k;
        search::lemma_first(mid.cached_servers@, p);
        law_selection_follows(old, mid);
        assert(mid.server_in_row(server_row) matches Some(s) && s.addr == k);
        assert(p(mid.cached_servers@[server_row]));
        let first = mid.row_of_server(k)->0;
        if first < server_row {
            lemma_servers_differ(mid, first, server_row);
        }
    }
}

/// Every item is somewhere after sorting.
proof fn lemma_sorted_shows<T>(
    before: Seq<T>,
    after: Seq<T>,
    later: spec_fn(T, T) -> bool,
    i: int,
) -> (row: int)
    requires
        order::sorted(before, after, later),
        0 <= i < before.len(),
    ensures
        0 <= row < after.len(),
        after[row] == before[i],
{
    let perm = choose|perm: Seq<int>|
        #[trigger] order::arranges(before, after, perm) && (order::orders(before, later)
            ==> order::in_order(after, perm, later));
    order::lemma_covers(perm, before.len(), i);
    let row = choose|row: int| 0 <= row < before.len() && #[trigger] perm[row] == i;
    assert(after[row] == before[perm[row]]);
    row
}

/// The selection among the kinds of calls stays on its kind wherever that stands, as long as it
/// has samples.
pub proof fn law_op_selection_follows(per_op: Seq<BpfOpLatency>, key: String, i: int)
    requires
        0 <= i < per_op.len(),
        per_op[i].op@ == key@,
    ensures
        0 <= op_row(per_op, Some(key)) < per_op.len(),
        per_op[op_row(per_op, Some(key))].op@ == key@,
{
    let p = |o: BpfOpLatency| o.op@ == key@;
    search::lemma_first(per_op, p);
    assert(p(per_op[i]));
}

/// Without a filter every mount passes.
pub proof fn law_empty_filter(mounts: Seq<MountView>)
    requires
        mounts.len() <= usize::MAX,
    ensures
        passing(mounts, Seq::empty()) == Seq::new(mounts.len(), |i: int| i as usize),
    decreases mounts.len(),
{
    if mounts.len() > 0 {
        law_empty_filter(mounts.drop_last());
    }
    assert(passing(mounts, Seq::empty()) =~= Seq::new(mounts.len(), |i: int| i as usize));
}

/// No series holds more samples than were asked for.
pub proof fn law_series_bounded(app: App, i: int)
    requires
        app.wf(),
    ensures
        app.read_hist@.len() <= app.history_len,
        app.write_hist@.len() <= app.history_len,
        app.ops_hist@.len() <= app.history_len,
        app.rtt_hist@.len() <= app.history_len,
        0 <= i < app.mount_histories.entries@.len() ==> {
            let t = app.mount_histories.entries@[i].1.trend();
            &&& t.read_bps.len() <= app.history_len
            &&& t.write_bps.len() <= app.history_len
            &&& t.read_lat_ms.len() <= app.history_len
            &&& t.write_lat_ms.len() <= app.history_len
        },
        0 <= i < app.server_histories.entries@.len() ==> {
            let t = app.server_histories.entries@[i].1.trend();
            &&& t.read_bps.len() <= app.history_len
            &&& t.write_bps.len() <= app.history_len
            &&& t.ops.len() <= app.history_len
            &&& t.rtt_ms.len() <= app.history_len
        },
{
}

} // verus!
