//! In what order mounts, servers and kinds of calls stand.

use crate::app;
use crate::app::App;
use crate::binary64;
use crate::binary64::Binary64;
use crate::order;
use crate::rank;
use crate::servers;
use crate::text;
use crate::types::{MountView, OpDerived, ServerAgg, Snapshot, SortKey};
use vstd::prelude::*;

verus! {

/// Whether a number is missing where the other is not, or smaller.
pub open spec fn short_of(a: Option<Binary64>, b: Option<Binary64>) -> bool {
    match b {
        Some(y) => match a {
            Some(x) => binary64::less(x, y),
            None => true,
        },
        None => false,
    }
}

/// Whether a mount stands behind another: it has less of what the key names, or the later name.
pub open spec fn mount_behind(a: MountView, b: MountView, sort: SortKey) -> bool {
    &&& sort == SortKey::Read ==> binary64::less(a.derived.read_bps, b.derived.read_bps)
    &&& sort == SortKey::Write ==> binary64::less(a.derived.write_bps, b.derived.write_bps)
    &&& sort == SortKey::Ops ==> binary64::less(a.derived.ops_per_sec, b.derived.ops_per_sec)
    &&& sort == SortKey::Rtt ==> short_of(a.derived.avg_rtt_ms, b.derived.avg_rtt_ms)
    &&& sort == SortKey::Exe ==> short_of(a.derived.avg_exe_ms, b.derived.avg_exe_ms)
    &&& sort == SortKey::Mount ==> text::precedes(b.counters.mountpoint@, a.counters.mountpoint@)
    &&& sort == SortKey::Nconnect ==> b.counters.nconnect is Some && (a.counters.nconnect is None
        || a.counters.nconnect->0 < b.counters.nconnect->0)
    &&& sort == SortKey::ObsConn ==> a.derived.observed_conns < b.derived.observed_conns
}

/// Whether a server stands behind another: it has less of what the key names; less calls where
/// the key names something of mounts alone.
pub open spec fn server_behind(a: ServerAgg, b: ServerAgg, sort: SortKey) -> bool {
    &&& sort == SortKey::Read ==> binary64::less(a.read_bps, b.read_bps)
    &&& sort == SortKey::Write ==> binary64::less(a.write_bps, b.write_bps)
    &&& sort == SortKey::Ops || sort == SortKey::Mount || sort == SortKey::Nconnect ==> binary64::less(
        a.ops_per_sec,
        b.ops_per_sec,
    )
    &&& sort == SortKey::Rtt ==> short_of(a.avg_rtt_ms, b.avg_rtt_ms)
    &&& sort == SortKey::Exe ==> short_of(a.avg_exe_ms, b.avg_exe_ms)
    &&& sort == SortKey::ObsConn ==> a.observed_conns < b.observed_conns
}

/// A comparison of two mounts says which has more of what the key names.
pub proof fn law_mounts_compare(a: MountView, b: MountView, sort: SortKey)
    ensures
        rank::mount_rank(a, b, sort) > 0 <==> mount_behind(a, b, sort),
        rank::mount_rank(a, b, sort) < 0 <==> mount_behind(b, a, sort),
{
    text::law_precedes_total(a.counters.mountpoint@, b.counters.mountpoint@);
}

/// A comparison of two servers says which has more of what the key names.
pub proof fn law_servers_compare(a: ServerAgg, b: ServerAgg, sort: SortKey)
    ensures
        rank::server_rank(a, b, sort) > 0 <==> server_behind(a, b, sort),
        rank::server_rank(a, b, sort) < 0 <==> server_behind(b, a, sort),
{
}

/// A comparison of two kinds of calls says which has more calls.
pub proof fn law_kinds_compare(a: OpDerived, b: OpDerived)
    ensures
        rank::op_rank(a, b) > 0 <==> binary64::less(a.ops_per_sec, b.ops_per_sec),
        rank::op_rank(a, b) < 0 <==> binary64::less(b.ops_per_sec, a.ops_per_sec),
{
}

proof fn lemma_mounts_listed(
    mounts: Seq<MountView>,
    before: Seq<usize>,
    after: Seq<usize>,
    sort: SortKey,
    i: int,
    j: int,
)
    requires
        order::sorted(before, after, |a: usize, b: usize| rank::mount_later(mounts, sort, a, b)),
        forall|k: int| 0 <= k < before.len() ==> #[trigger] before[k] < mounts.len(),
        forall|k: int| 0 <= k < mounts.len() ==> rank::comparable(#[trigger] mounts[k], sort),
        forall|k: int, l: int| 0 <= k < l < before.len() ==> #[trigger] before[k] < #[trigger] before[l],
        0 <= i < j < after.len(),
    ensures
        after[i] < mounts.len(),
        after[j] < mounts.len(),
        !mount_behind(mounts[after[i] as int], mounts[after[j] as int], sort),
        !mount_behind(mounts[after[j] as int], mounts[after[i] as int], sort) ==> after[i] < after[j],
{
    let later = |a: usize, b: usize| rank::mount_later(mounts, sort, a, b);
    rank::law_mounts_ordered(mounts, before, sort);
    let perm = choose|perm: Seq<int>|
        #[trigger] order::arranges(before, after, perm) && (order::orders(before, later) ==> order::in_order(
            after,
            perm,
            later,
        ));
    assert(after[i] == before[perm[i]]);
    assert(after[j] == before[perm[j]]);
    assert(!later(after[i], after[j]));
    law_mounts_compare(mounts[after[i] as int], mounts[after[j] as int], sort);
    if !mount_behind(mounts[after[j] as int], mounts[after[i] as int], sort) {
        assert(!later(after[j], after[i]));
        assert(perm[i] < perm[j]);
    }
}

proof fn lemma_servers_listed(before: Seq<ServerAgg>, after: Seq<ServerAgg>, sort: SortKey, i: int, j: int)
    requires
        order::sorted(before, after, |a: ServerAgg, b: ServerAgg| rank::server_rank(a, b, sort) > 0),
        forall|k: int| 0 <= k < after.len() ==> rank::comparable_server(#[trigger] after[k], sort),
        0 <= i < j < after.len(),
    ensures
        !server_behind(after[i], after[j], sort),
{
    let later = |a: ServerAgg, b: ServerAgg| rank::server_rank(a, b, sort) > 0;
    let perm = choose|perm: Seq<int>|
        #[trigger] order::arranges(before, after, perm) && (order::orders(before, later) ==> order::in_order(
            after,
            perm,
            later,
        ));
    assert forall|k: int| 0 <= k < before.len() implies rank::comparable_server(#[trigger] before[k], sort) by {
        order::lemma_covers(perm, before.len(), k);
        let r = choose|r: int| 0 <= r < before.len() && #[trigger] perm[r] == k;
        assert(after[r] == before[perm[r]]);
    }
    rank::law_servers_ordered(before, sort);
    assert(!later(after[i], after[j]));
    law_servers_compare(after[i], after[j], sort);
}

/// After a snapshot the rows stand by the key: no mount stands before one that it is behind, nor
/// does a server, and mounts that are neither behind the other stand in the order of the snapshot.
pub proof fn law_snapshot_listed(old: App, new: App, snap: Snapshot, i: int, j: int)
    requires
        app::ingested(old, new, snap),
        snap.mounts@.len() <= usize::MAX,
        0 <= i < j,
    ensures
        new.sort == old.sort,
        j < new.cached_visible_idx@.len() && (forall|k: int|
            0 <= k < snap.mounts@.len() ==> rank::comparable(#[trigger] snap.mounts@[k], old.sort)) ==> ({
            let a = new.cached_visible_idx@[i];
            let b = new.cached_visible_idx@[j];
            &&& a < snap.mounts@.len() && b < snap.mounts@.len()
            &&& !mount_behind(snap.mounts@[a as int], snap.mounts@[b as int], old.sort)
            &&& !mount_behind(snap.mounts@[b as int], snap.mounts@[a as int], old.sort) ==> a < b
        }),
        j < new.cached_servers@.len() && (forall|k: int|
            0 <= k < new.cached_servers@.len() ==> rank::comparable_server(
                #[trigger] new.cached_servers@[k],
                old.sort,
            )) ==> !server_behind(new.cached_servers@[i], new.cached_servers@[j], old.sort),
{
    let sort = old.sort;
    app::lemma_passing(snap.mounts@, old.filter_lower@);
    if j < new.cached_visible_idx@.len() && (forall|k: int|
        0 <= k < snap.mounts@.len() ==> rank::comparable(#[trigger] snap.mounts@[k], sort)) {
        lemma_mounts_listed(
            snap.mounts@,
            app::passing(snap.mounts@, old.filter_lower@),
            new.cached_visible_idx@,
            sort,
            i,
            j,
        );
    }
    if j < new.cached_servers@.len() && (forall|k: int|
        0 <= k < new.cached_servers@.len() ==> rank::comparable_server(#[trigger] new.cached_servers@[k], sort)) {
        let unsorted = choose|unsorted: Seq<ServerAgg>|
            #[trigger] servers::are_aggregates(unsorted, snap.mounts@) && order::sorted(
                unsorted,
                new.cached_servers@,
                |a: ServerAgg, b: ServerAgg| rank::server_rank(a, b, sort) > 0,
            );
        lemma_servers_listed(unsorted, new.cached_servers@, sort, i, j);
    }
}

/// After a change of the key the mounts stand by the new key.
pub proof fn law_mounts_resorted(old: App, new: App, sort: SortKey, i: int, j: int)
    requires
        old.wf(),
        old.snapshot is Some,
        old.mounts().len() <= usize::MAX,
        app::resorted(old, new, sort),
        0 <= i < j < new.cached_visible_idx@.len(),
        forall|k: int| 0 <= k < old.mounts().len() ==> rank::comparable(#[trigger] old.mounts()[k], sort),
    ensures
        new.sort == sort,
        new.cached_visible_idx@[i] < old.mounts().len(),
        new.cached_visible_idx@[j] < old.mounts().len(),
        !mount_behind(
            old.mounts()[new.cached_visible_idx@[i] as int],
            old.mounts()[new.cached_visible_idx@[j] as int],
            sort,
        ),
{
    app::law_rows_pass_filter(old);
    assert forall|k: int| 0 <= k < old.cached_visible_idx@.len() implies #[trigger] old.cached_visible_idx@[k]
        < old.mounts().len() by {
        assert(old.mount_in_row(k) is Some);
    }
    lemma_mounts_relisted(old.mounts(), old.cached_visible_idx@, new.cached_visible_idx@, sort, i, j);
}

/// After a change of the key the servers stand by the new key.
pub proof fn law_servers_resorted(old: App, new: App, sort: SortKey, i: int, j: int)
    requires
        app::resorted(old, new, sort),
        0 <= i < j < new.cached_servers@.len(),
        forall|k: int|
            0 <= k < new.cached_servers@.len() ==> rank::comparable_server(#[trigger] new.cached_servers@[k], sort),
    ensures
        !server_behind(new.cached_servers@[i], new.cached_servers@[j], sort),
{
    lemma_servers_listed(old.cached_servers@, new.cached_servers@, sort, i, j);
}

proof fn lemma_mounts_relisted(
    mounts: Seq<MountView>,
    before: Seq<usize>,
    after: Seq<usize>,
    sort: SortKey,
    i: int,
    j: int,
)
    requires
        order::sorted(before, after, |a: usize, b: usize| rank::mount_later(mounts, sort, a, b)),
        forall|k: int| 0 <= k < before.len() ==> #[trigger] before[k] < mounts.len(),
        forall|k: int| 0 <= k < mounts.len() ==> rank::comparable(#[trigger] mounts[k], sort),
        0 <= i < j < after.len(),
    ensures
        after[i] < mounts.len(),
        after[j] < mounts.len(),
        !mount_behind(mounts[after[i] as int], mounts[after[j] as int], sort),
{
    let later = |a: usize, b: usize| rank::mount_later(mounts, sort, a, b);
    rank::law_mounts_ordered(mounts, before, sort);
    let perm = choose|perm: Seq<int>|
        #[trigger] order::arranges(before, after, perm) && (order::orders(before, later) ==> order::in_order(
            after,
            perm,
            later,
        ));
    assert(after[i] == before[perm[i]]);
    assert(after[j] == before[perm[j]]);
    assert(!later(after[i], after[j]));
    law_mounts_compare(mounts[after[i] as int], mounts[after[j] as int], sort);
}

} // verus!
