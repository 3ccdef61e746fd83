//! What the series of samples hold after a snapshot.

use crate::app;
use crate::app::App;
use crate::binary64;
use crate::binary64::Binary64;
use crate::history;
use crate::history::{MountHistory, ServerHistory};
use crate::law_rates;
use crate::ringbuf;
use crate::search;
use crate::table;
use crate::table::Key;
use crate::text;
use crate::types::{IpAddr, MountView, OpDerived, ServerAgg, Snapshot};
use vstd::prelude::*;

verus! {

/// Whether `after` is `before` with `x` behind it, cut down to its latest `cap` items.
pub open spec fn goes_on<T>(before: Seq<T>, after: Seq<T>, x: T, cap: nat) -> bool {
    &&& after.len() > 0
    &&& after.last() == x
    &&& after.len() == if before.len() + 1 <= cap {
        before.len() + 1
    } else {
        cap
    }
    &&& forall|i: int|
        1 <= i < after.len() ==> #[trigger] after[after.len() - 1 - i] == before[before.len() - i]
}

proof fn lemma_goes_on<T>(before: Seq<T>, x: T, cap: nat)
    requires
        cap > 0,
        before.len() <= cap,
    ensures
        goes_on(before, ringbuf::pushed(before, cap, x), x, cap),
{
}

/// Whether the item at index `i` is the first with a key.
spec fn is_first_with<K, V>(s: Seq<(K, V)>, key: K, i: int) -> bool {
    0 <= i < s.len() && s[i].0 == key && forall|j: int| 0 <= j < i ==> (#[trigger] s[j]).0 != key
}

/// The value of the first item with a key.
spec fn find<K, V>(s: Seq<(K, V)>, key: K) -> Option<V> {
    if exists|i: int| is_first_with(s, key, i) {
        Some(s[choose|i: int| is_first_with(s, key, i)].1)
    } else {
        None
    }
}

proof fn lemma_find<K, V>(s: Seq<(K, V)>, key: K, i: int)
    ensures
        is_first_with(s, key, i) ==> find(s, key) == Some(s[i].1),
        (forall|j: int| 0 <= j < s.len() ==> (#[trigger] s[j]).0 != key) ==> find(s, key) is None,
        find(s, key) is None ==> forall|j: int| 0 <= j < s.len() ==> (#[trigger] s[j]).0 != key,
{
    if is_first_with(s, key, i) {
        let k = choose|k: int| is_first_with(s, key, k);
        assert(is_first_with(s, key, k));
        if k < i {
            assert(s[k].0 != key);
        } else if i < k {
            assert(s[i].0 != key);
        }
    }
    if find(s, key) is None {
        assert forall|j: int| 0 <= j < s.len() implies (#[trigger] s[j]).0 != key by {
            if s[j].0 == key {
                lemma_some_first(s, key, j);
            }
        }
    }
}

proof fn lemma_some_first<K, V>(s: Seq<(K, V)>, key: K, j: int)
    requires
        0 <= j < s.len(),
        s[j].0 == key,
    ensures
        exists|i: int| is_first_with(s, key, i),
    decreases j,
{
    if exists|k: int| 0 <= k < j && (#[trigger] s[k]).0 == key {
        let k = choose|k: int| 0 <= k < j && (#[trigger] s[k]).0 == key;
        lemma_some_first(s, key, k);
    } else {
        assert(is_first_with(s, key, j));
    }
}

/// An item put in place of the first with its key, or last.
proof fn lemma_put<K, V>(s: Seq<(K, V)>, after: Seq<(K, V)>, at: Option<int>, key: K, value: V, other: K)
    requires
        match at {
            Some(i) => is_first_with(s, key, i) && after == s.update(i, (key, value)),
            None => (forall|j: int| 0 <= j < s.len() ==> (#[trigger] s[j]).0 != key) && after == s.push(
                (key, value),
            ),
        },
    ensures
        find(after, key) == Some(value),
        other != key ==> find(after, other) == find(s, other),
{
    match at {
        Some(i) => {
            assert(is_first_with(after, key, i));
            lemma_find(after, key, i);
        },
        None => {
            assert(is_first_with(after, key, s.len() as int));
            lemma_find(after, key, s.len() as int);
        },
    }
    if other != key {
        lemma_find(s, other, 0);
        match find(s, other) {
            Some(_) => {
                let k = choose|k: int| is_first_with(s, other, k);
                assert(is_first_with(s, other, k));
                assert(is_first_with(after, other, k));
                lemma_find(after, other, k);
            },
            None => {
                lemma_find(after, other, 0);
            },
        }
    }
}

proof fn lemma_server_recorded(trends: history::ServerTrends, cap: nat, s: ServerAgg, other: Option<IpAddr>)
    ensures
        find(history::server_recorded(trends, cap, s), s.addr) == Some(
            history::server_trend_with(
                match find(trends, s.addr) {
                    Some(t) => t,
                    None => history::no_server_trend(),
                },
                cap,
                s,
            ),
        ),
        other != s.addr ==> find(history::server_recorded(trends, cap, s), other) == find(trends, other),
{
    let p = |e: (Option<IpAddr>, history::ServerTrend)| e.0 == s.addr;
    let at = search::first(trends, p);
    search::lemma_first(trends, p);
    lemma_find(trends, s.addr, if at is Some { at->0 } else { 0 });
    let t = match find(trends, s.addr) {
        Some(t) => t,
        None => history::no_server_trend(),
    };
    lemma_put(
        trends,
        history::server_recorded(trends, cap, s),
        at,
        s.addr,
        history::server_trend_with(t, cap, s),
        other,
    );
}

/// Each of some servers with different addresses is recorded once.
proof fn lemma_servers_recorded(
    trends: history::ServerTrends,
    cap: nat,
    servers: Seq<ServerAgg>,
    k: int,
    other: Option<IpAddr>,
)
    requires
        forall|a: int, b: int|
            0 <= a < b < servers.len() ==> (#[trigger] servers[a]).addr != (#[trigger] servers[b]).addr,
    ensures
        0 <= k < servers.len() ==> find(
            history::servers_recorded(trends, cap, servers),
            servers[k].addr,
        ) == Some(
            history::server_trend_with(
                match find(trends, servers[k].addr) {
                    Some(t) => t,
                    None => history::no_server_trend(),
                },
                cap,
                servers[k],
            ),
        ),
        (forall|a: int| 0 <= a < servers.len() ==> (#[trigger] servers[a]).addr != other) ==> find(
            history::servers_recorded(trends, cap, servers),
            other,
        ) == find(trends, other),
    decreases servers.len(),
{
    if servers.len() > 0 {
        let front = servers.drop_last();
        let last = servers.len() - 1;
        let before = history::servers_recorded(trends, cap, front);
        assert forall|a: int, b: int| 0 <= a < b < front.len() implies (#[trigger] front[a]).addr
            != (#[trigger] front[b]).addr by {
            assert(servers[a].addr != servers[b].addr);
        }
        if 0 <= k < last {
            lemma_servers_recorded(trends, cap, front, k, other);
            assert(front[k] == servers[k]);
            assert(servers[k].addr != servers[last].addr);
            lemma_server_recorded(before, cap, servers[last], servers[k].addr);
        }
        if k == last {
            assert forall|a: int| 0 <= a < front.len() implies (#[trigger] front[a]).addr
                != servers[last].addr by {
                assert(servers[a].addr != servers[last].addr);
            }
            lemma_servers_recorded(trends, cap, front, 0, servers[last].addr);
            lemma_server_recorded(before, cap, servers[last], other);
        }
        if forall|a: int| 0 <= a < servers.len() ==> (#[trigger] servers[a]).addr != other {
            assert forall|a: int| 0 <= a < front.len() implies (#[trigger] front[a]).addr != other by {
                assert(servers[a].addr != other);
            }
            lemma_servers_recorded(trends, cap, front, 0, other);
            assert(servers[last].addr != other);
            lemma_server_recorded(before, cap, servers[last], other);
        }
    }
}

proof fn lemma_server_lookup(entries: Seq<(Option<IpAddr>, ServerHistory)>, addr: Option<IpAddr>)
    requires
        table::distinct(entries),
    ensures
        match table::lookup(entries, addr) {
            Some(h) => find(history::server_trends(entries), addr) == Some(h.trend()),
            None => find(history::server_trends(entries), addr) is None,
        },
{
    let trends = history::server_trends(entries);
    table::law_entries_are_found(entries, 0, addr);
    match table::lookup(entries, addr) {
        Some(h) => {
            let j = choose|j: int|
                0 <= j < entries.len() && (#[trigger] entries[j]).0.id() == addr && entries[j].1 == h;
            assert forall|k: int| 0 <= k < j implies (#[trigger] trends[k]).0 != addr by {
                assert(entries[k].0.id() != entries[j].0.id());
            }
            assert(is_first_with(trends, addr, j));
            lemma_find(trends, addr, j);
        },
        None => {
            assert forall|k: int| 0 <= k < trends.len() implies (#[trigger] trends[k]).0 != addr by {
                table::law_entries_are_found(entries, k, addr);
            }
            lemma_find(trends, addr, 0);
        },
    }
}

/// No samples of a server, or those that a history holds.
pub open spec fn samples_of(h: Option<ServerHistory>) -> (Seq<Binary64>, Seq<Binary64>, Seq<Binary64>, Seq<Binary64>) {
    match h {
        Some(h) => (h.read_bps@, h.write_bps@, h.ops@, h.rtt_ms@),
        None => (Seq::empty(), Seq::empty(), Seq::empty(), Seq::empty()),
    }
}

/// A snapshot adds to the four series of each server what the server reads and writes, its calls
/// per second, and its round trip time or zero, each to the series of that name; the samples
/// before stay, but for the oldest where there is no room.
pub proof fn law_server_series(old: App, new: App, snap: Snapshot, k: int)
    requires
        old.wf(),
        new.wf(),
        app::ingested(old, new, snap),
        old.history_len > 0,
        0 <= k < new.cached_servers@.len(),
    ensures
        ({
            let s = new.cached_servers@[k];
            let cap = old.history_len as nat;
            let (read, write, ops, rtt) = samples_of(
                table::lookup(old.server_histories.entries@, s.addr),
            );
            table::lookup(new.server_histories.entries@, s.addr) matches Some(h) && {
                &&& goes_on(read, h.read_bps@, s.read_bps, cap)
                &&& goes_on(write, h.write_bps@, s.write_bps, cap)
                &&& goes_on(ops, h.ops@, s.ops_per_sec, cap)
                &&& goes_on(
                    rtt,
                    h.rtt_ms@,
                    if s.avg_rtt_ms is Some {
                        s.avg_rtt_ms->0
                    } else {
                        binary64::zero()
                    },
                    cap,
                )
            }
        }),
{
    let servers = new.cached_servers@;
    let s = servers[k];
    let cap = old.history_len as nat;
    let before = old.server_histories.entries@;
    let after = new.server_histories.entries@;
    assert forall|a: int, b: int| 0 <= a < b < servers.len() implies (#[trigger] servers[a]).addr
        != (#[trigger] servers[b]).addr by {
        app::lemma_servers_differ(new, a, b);
    }
    lemma_servers_recorded(history::server_trends(before), cap, servers, k, s.addr);
    lemma_server_lookup(before, s.addr);
    lemma_server_lookup(after, s.addr);
    table::law_entries_are_found(before, 0, s.addr);
    let (read, write, ops, rtt) = samples_of(table::lookup(before, s.addr));
    lemma_goes_on(read, s.read_bps, cap);
    lemma_goes_on(write, s.write_bps, cap);
    lemma_goes_on(ops, s.ops_per_sec, cap);
    lemma_goes_on(
        rtt,
        if s.avg_rtt_ms is Some {
            s.avg_rtt_ms->0
        } else {
            binary64::zero()
        },
        cap,
    );
}

proof fn lemma_mount_recorded(trends: history::MountTrends, cap: nat, m: MountView, other: Seq<char>)
    ensures
        find(history::mount_recorded(trends, cap, m), m.counters.mountpoint@) == Some(
            history::mount_trend_with(
                match find(trends, m.counters.mountpoint@) {
                    Some(t) => t,
                    None => history::no_mount_trend(),
                },
                cap,
                m,
            ),
        ),
        other != m.counters.mountpoint@ ==> find(history::mount_recorded(trends, cap, m), other)
            == find(trends, other),
{
    let name = m.counters.mountpoint@;
    let p = |e: (Seq<char>, history::MountTrend)| e.0 == name;
    let at = search::first(trends, p);
    search::lemma_first(trends, p);
    lemma_find(trends, name, if at is Some { at->0 } else { 0 });
    let t = match find(trends, name) {
        Some(t) => t,
        None => history::no_mount_trend(),
    };
    lemma_put(
        trends,
        history::mount_recorded(trends, cap, m),
        at,
        name,
        history::mount_trend_with(t, cap, m),
        other,
    );
}

proof fn lemma_mounts_recorded(
    trends: history::MountTrends,
    cap: nat,
    mounts: Seq<MountView>,
    k: int,
    other: Seq<char>,
)
    requires
        one_each(mounts),
    ensures
        0 <= k < mounts.len() ==> find(
            history::mounts_recorded(trends, cap, mounts),
            mounts[k].counters.mountpoint@,
        ) == Some(
            history::mount_trend_with(
                match find(trends, mounts[k].counters.mountpoint@) {
                    Some(t) => t,
                    None => history::no_mount_trend(),
                },
                cap,
                mounts[k],
            ),
        ),
        (forall|a: int|
            0 <= a < mounts.len() ==> (#[trigger] mounts[a]).counters.mountpoint@ != other) ==> find(
            history::mounts_recorded(trends, cap, mounts),
            other,
        ) == find(trends, other),
    decreases mounts.len(),
{
    if mounts.len() > 0 {
        let front = mounts.drop_last();
        let last = mounts.len() - 1;
        let name = mounts[last].counters.mountpoint@;
        let before = history::mounts_recorded(trends, cap, front);
        assert forall|a: int, b: int| 0 <= a < b < front.len() implies (#[trigger] front[a]).counters.mountpoint@
            != (#[trigger] front[b]).counters.mountpoint@ by {
            assert(mounts[a].counters.mountpoint@ != mounts[b].counters.mountpoint@);
        }
        if 0 <= k < last {
            lemma_mounts_recorded(trends, cap, front, k, other);
            assert(front[k] == mounts[k]);
            assert(mounts[k].counters.mountpoint@ != mounts[last].counters.mountpoint@);
            lemma_mount_recorded(before, cap, mounts[last], mounts[k].counters.mountpoint@);
        }
        if k == last {
            assert forall|a: int| 0 <= a < front.len() implies (#[trigger] front[a]).counters.mountpoint@
                != name by {
                assert(mounts[a].counters.mountpoint@ != mounts[last].counters.mountpoint@);
            }
            lemma_mounts_recorded(trends, cap, front, 0, name);
            lemma_mount_recorded(before, cap, mounts[last], other);
        }
        if forall|a: int| 0 <= a < mounts.len() ==> (#[trigger] mounts[a]).counters.mountpoint@ != other {
            assert forall|a: int| 0 <= a < front.len() implies (#[trigger] front[a]).counters.mountpoint@
                != other by {
                assert(mounts[a].counters.mountpoint@ != other);
            }
            lemma_mounts_recorded(trends, cap, front, 0, other);
            assert(mounts[last].counters.mountpoint@ != other);
            lemma_mount_recorded(before, cap, mounts[last], other);
        }
    }
}

proof fn lemma_mount_lookup(entries: Seq<(String, MountHistory)>, name: Seq<char>)
    requires
        table::distinct(entries),
    ensures
        match table::lookup(entries, name) {
            Some(h) => find(history::mount_trends(entries), name) == Some(h.trend()),
            None => find(history::mount_trends(entries), name) is None,
        },
{
    let trends = history::mount_trends(entries);
    table::law_entries_are_found(entries, 0, name);
    match table::lookup(entries, name) {
        Some(h) => {
            let j = choose|j: int|
                0 <= j < entries.len() && (#[trigger] entries[j]).0.id() == name && entries[j].1 == h;
            assert forall|k: int| 0 <= k < j implies (#[trigger] trends[k]).0 != name by {
                assert(entries[k].0.id() != entries[j].0.id());
            }
            assert(is_first_with(trends, name, j));
            lemma_find(trends, name, j);
        },
        None => {
            assert forall|k: int| 0 <= k < trends.len() implies (#[trigger] trends[k]).0 != name by {
                table::law_entries_are_found(entries, k, name);
            }
            lemma_find(trends, name, 0);
        },
    }
}

/// Whether no mountpoint occurs twice.
pub open spec fn one_each(mounts: Seq<MountView>) -> bool {
    forall|a: int, b: int|
        0 <= a < b < mounts.len() ==> (#[trigger] mounts[a]).counters.mountpoint@
            != (#[trigger] mounts[b]).counters.mountpoint@
}

/// No samples of a mount, or those that a history holds.
pub open spec fn mount_samples_of(h: Option<MountHistory>) -> (
    Seq<Binary64>,
    Seq<Binary64>,
    Seq<Binary64>,
    Seq<Binary64>,
) {
    match h {
        Some(h) => (h.read_bps@, h.write_bps@, h.read_lat_ms@, h.write_lat_ms@),
        None => (Seq::empty(), Seq::empty(), Seq::empty(), Seq::empty()),
    }
}

/// Whether `x` is the round trip time of the first row named `op`, or zero where there is no such
/// row or it has none.
pub open spec fn is_time_of(x: Binary64, per_op: Seq<OpDerived>, op: Seq<char>) -> bool {
    &&& forall|i: int|
        0 <= i < per_op.len() && (#[trigger] per_op[i]).op@ == op && (forall|j: int|
            0 <= j < i ==> (#[trigger] per_op[j]).op@ != op) ==> x == if per_op[i].avg_rtt_ms is Some {
            per_op[i].avg_rtt_ms->0
        } else {
            binary64::zero()
        }
    &&& (forall|i: int| 0 <= i < per_op.len() ==> (#[trigger] per_op[i]).op@ != op) ==> x
        == binary64::zero()
}

proof fn lemma_time_of(per_op: Seq<OpDerived>, name: &str)
    ensures
        is_time_of(history::op_latency(per_op, name@), per_op, name@),
{
    let p = |o: OpDerived| o.op@ == name@;
    search::lemma_first(per_op, p);
    assert forall|i: int|
        0 <= i < per_op.len() && (#[trigger] per_op[i]).op@ == name@ && (forall|j: int|
            0 <= j < i ==> (#[trigger] per_op[j]).op@ != name@) implies history::op_latency(per_op, name@)
        == if per_op[i].avg_rtt_ms is Some {
        per_op[i].avg_rtt_ms->0
    } else {
        binary64::zero()
    } by {
        search::lemma_first_is(per_op, p, i);
    }
    if forall|i: int| 0 <= i < per_op.len() ==> (#[trigger] per_op[i]).op@ != name@ {
        search::lemma_first_none(per_op, p);
    }
}

/// A snapshot in which no mountpoint occurs twice adds to the four series of each mount what the
/// mount reads and writes, and the round trip times of its calls READ and WRITE or zero, each to
/// the series of that name.
pub proof fn law_mount_series(old: App, new: App, snap: Snapshot, k: int)
    requires
        old.wf(),
        new.wf(),
        app::ingested(old, new, snap),
        old.history_len > 0,
        one_each(snap.mounts@),
        0 <= k < snap.mounts@.len(),
    ensures
        ({
            let m = snap.mounts@[k];
            let cap = old.history_len as nat;
            let (read, write, read_lat, write_lat) = mount_samples_of(
                table::lookup(old.mount_histories.entries@, m.counters.mountpoint@),
            );
            table::lookup(new.mount_histories.entries@, m.counters.mountpoint@) matches Some(h) && {
                &&& goes_on(read, h.read_bps@, m.derived.read_bps, cap)
                &&& goes_on(write, h.write_bps@, m.derived.write_bps, cap)
                &&& goes_on(read_lat, h.read_lat_ms@, h.read_lat_ms@.last(), cap)
                &&& goes_on(write_lat, h.write_lat_ms@, h.write_lat_ms@.last(), cap)
                &&& is_time_of(h.read_lat_ms@.last(), m.derived.per_op@, "READ"@)
                &&& is_time_of(h.write_lat_ms@.last(), m.derived.per_op@, "WRITE"@)
            }
        }),
{
    let m = snap.mounts@[k];
    let key = m.counters.mountpoint;
    let cap = old.history_len as nat;
    let before = old.mount_histories.entries@;
    let after = new.mount_histories.entries@;
    lemma_mounts_recorded(history::mount_trends(before), cap, snap.mounts@, k, key@);
    lemma_mount_lookup(before, key@);
    lemma_mount_lookup(after, key@);
    table::law_entries_are_found(before, 0, key@);
    let (read, write, read_lat, write_lat) = mount_samples_of(table::lookup(before, key@));
    lemma_goes_on(read, m.derived.read_bps, cap);
    lemma_goes_on(write, m.derived.write_bps, cap);
    lemma_goes_on(read_lat, history::op_latency(m.derived.per_op@, "READ"@), cap);
    lemma_goes_on(write_lat, history::op_latency(m.derived.per_op@, "WRITE"@), cap);
    lemma_time_of(m.derived.per_op@, "READ");
    lemma_time_of(m.derived.per_op@, "WRITE");
}

/// Whether some part of `hay` is `needle`.
pub open spec fn holds_text(hay: Seq<char>, needle: Seq<char>) -> bool {
    exists|front: Seq<char>, back: Seq<char>| #[trigger] (front + needle + back) == hay
}

/// Whether a mount is counted under a filter: its mountpoint or its device, in lower case, holds
/// the filter in lower case.
pub open spec fn is_wanted(m: MountView, filter: Seq<char>) -> bool {
    holds_text(text::lowercase(m.counters.mountpoint@), text::lowercase(filter)) || holds_text(
        text::lowercase(m.counters.device@),
        text::lowercase(filter),
    )
}

proof fn lemma_occurs(hay: Seq<char>, needle: Seq<char>)
    ensures
        text::occurs(hay, needle) == holds_text(hay, needle),
        needle.len() == 0 ==> holds_text(hay, needle),
{
    if text::occurs(hay, needle) {
        let i = choose|i: int| text::occurs_at(hay, needle, i);
        let front = hay.take(i);
        let back = hay.skip(i + needle.len());
        assert(front + needle + back =~= hay);
    }
    if holds_text(hay, needle) {
        let (front, back) = choose|front: Seq<char>, back: Seq<char>| #[trigger]
            (front + needle + back) == hay;
        assert(hay.subrange(front.len() as int, (front.len() + needle.len()) as int) =~= needle);
        assert(text::occurs_at(hay, needle, front.len() as int));
    }
    if needle.len() == 0 {
        assert(Seq::<char>::empty() + needle + hay =~= hay);
    }
}

/// A mount passes the filter where its mountpoint or its device holds the filter, whatever the
/// case of the letters; all do where there is no filter.
pub proof fn law_filter(m: MountView, filter: Seq<char>)
    ensures
        app::passes(m, text::lowercase(filter)) == is_wanted(m, filter),
        text::lowercase(filter).len() == 0 ==> is_wanted(m, filter),
{
    lemma_occurs(text::lowercase(m.counters.mountpoint@), text::lowercase(filter));
    lemma_occurs(text::lowercase(m.counters.device@), text::lowercase(filter));
}

/// The mounts that are counted under a filter.
pub open spec fn wanted(mounts: Seq<MountView>, filter: Seq<char>) -> Seq<MountView> {
    mounts.filter(|m: MountView| is_wanted(m, filter))
}

/// The mounts that have a round trip time.
pub open spec fn timed(mounts: Seq<MountView>) -> Seq<MountView> {
    mounts.filter(|m: MountView| m.derived.avg_rtt_ms is Some)
}

proof fn lemma_filter_totals(mounts: Seq<MountView>, filter: Seq<char>)
    ensures
        ({
            let t = app::filter_totals(mounts, text::lowercase(filter));
            let w = wanted(mounts, filter);
            &&& t.read_bps == law_rates::added(w, |m: MountView| m.derived.read_bps)
            &&& t.write_bps == law_rates::added(w, |m: MountView| m.derived.write_bps)
            &&& t.ops_per_sec == law_rates::added(w, |m: MountView| m.derived.ops_per_sec)
            &&& t.rtt_ms == law_rates::added(timed(w), |m: MountView| m.derived.avg_rtt_ms->0)
            &&& t.rtt_count == timed(w).len()
        }),
    decreases mounts.len(),
{
    reveal(Seq::filter);
    if mounts.len() > 0 {
        let front = mounts.drop_last();
        let m = mounts.last();
        lemma_filter_totals(front, filter);
        law_filter(m, filter);
        let w = wanted(mounts, filter);
        let v = wanted(front, filter);
        if is_wanted(m, filter) {
            assert(w == v.push(m));
            assert(w.drop_last() =~= v);
            assert(w.last() == m);
            if m.derived.avg_rtt_ms is Some {
                assert(timed(w) == timed(v).push(m));
                assert(timed(w).drop_last() =~= timed(v));
                assert(timed(w).last() == m);
            } else {
                assert(timed(w) == timed(v));
            }
        }
    }
}

/// A snapshot adds to the four series of the whole the sums over the mounts that the filter
/// wants of what they read and write and of their calls, and the mean of their round trip times,
/// zero where there is none. The running totals grow by what was read and written in the time
/// between the samples, where that is a time.
pub proof fn law_global_series(old: App, new: App, snap: Snapshot)
    requires
        old.wf(),
        app::ingested(old, new, snap),
        old.history_len > 0,
    ensures
        ({
            let cap = old.history_len as nat;
            let w = wanted(snap.mounts@, old.filter@);
            let read = law_rates::added(w, |m: MountView| m.derived.read_bps);
            let write = law_rates::added(w, |m: MountView| m.derived.write_bps);
            let n = timed(w).len();
            &&& goes_on(old.read_hist@, new.read_hist@, read, cap)
            &&& goes_on(old.write_hist@, new.write_hist@, write, cap)
            &&& goes_on(
                old.ops_hist@,
                new.ops_hist@,
                law_rates::added(w, |m: MountView| m.derived.ops_per_sec),
                cap,
            )
            &&& goes_on(
                old.rtt_hist@,
                new.rtt_hist@,
                if n == 0 {
                    binary64::zero()
                } else {
                    binary64::quotient(
                        law_rates::added(timed(w), |m: MountView| m.derived.avg_rtt_ms->0),
                        binary64::whole(n),
                    )
                },
                cap,
            )
            &&& binary64::less(binary64::zero(), snap.dt_secs) && snap.dt_secs.finite() ==> {
                &&& new.cumulative_read_bytes == binary64::sum(
                    old.cumulative_read_bytes,
                    binary64::product(read, snap.dt_secs),
                )
                &&& new.cumulative_write_bytes == binary64::sum(
                    old.cumulative_write_bytes,
                    binary64::product(write, snap.dt_secs),
                )
            }
            &&& !binary64::less(binary64::zero(), snap.dt_secs) || !snap.dt_secs.finite() ==> {
                &&& new.cumulative_read_bytes == old.cumulative_read_bytes
                &&& new.cumulative_write_bytes == old.cumulative_write_bytes
            }
            &&& new.last_sample == Some(snap.ts)
            &&& new.snapshot == Some(snap)
            &&& new.tab == old.tab
            &&& new.paused == old.paused
            &&& new.filter == old.filter
            &&& new.sort == old.sort
            &&& new.units == old.units
            &&& new.interval == old.interval
            &&& new.last_error == old.last_error
            &&& new.percentile_mode == old.percentile_mode
            &&& new.selected_op_key == old.selected_op_key
            &&& new.history_len == old.history_len
        }),
{
    let cap = old.history_len as nat;
    lemma_filter_totals(snap.mounts@, old.filter@);
    let t = app::filter_totals(snap.mounts@, old.filter_lower@);
    lemma_goes_on(old.read_hist@, t.read_bps, cap);
    lemma_goes_on(old.write_hist@, t.write_bps, cap);
    lemma_goes_on(old.ops_hist@, t.ops_per_sec, cap);
    lemma_goes_on(old.rtt_hist@, app::mean_rtt(t), cap);
}

/// A reset leaves no sample and no running total, and what is shown and selected as it is.
pub proof fn law_reset(old: App, new: App)
    requires
        app::is_reset(old, new),
    ensures
        new.read_hist@.len() == 0,
        new.write_hist@.len() == 0,
        new.ops_hist@.len() == 0,
        new.rtt_hist@.len() == 0,
        new.cumulative_read_bytes == binary64::zero(),
        new.cumulative_write_bytes == binary64::zero(),
        new.mount_histories.entries@.len() == 0,
        new.server_histories.entries@.len() == 0,
        new.snapshot == old.snapshot,
        new.selected == old.selected,
        new.server_selected == old.server_selected,
        new.selected_mount_key == old.selected_mount_key,
        new.selected_server_key == old.selected_server_key,
        new.selected_op_key == old.selected_op_key,
        new.cached_visible_idx == old.cached_visible_idx,
        new.cached_servers == old.cached_servers,
        new.tab == old.tab,
        new.paused == old.paused,
        new.filter == old.filter,
        new.sort == old.sort,
        new.units == old.units,
        new.interval == old.interval,
        new.last_error == old.last_error,
        new.last_sample == old.last_sample,
        new.percentile_mode == old.percentile_mode,
        new.history_len == old.history_len,
{
}

} // verus!
