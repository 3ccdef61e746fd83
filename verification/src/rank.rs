//! How mounts, servers and calls compare.
//!
//! A rank is negative where the first of two items comes first, positive where it comes later,
//! and zero where neither does.

use crate::binary64;
use crate::binary64::Binary64;
use crate::order;
use crate::order::Order;
use crate::text;
use crate::text::is_before;
use crate::types::{MountView, OpDerived, ServerAgg, SortKey};
use std::cmp::Ordering;
use vstd::prelude::*;

verus! {

/// Smaller numbers first; what is not a number ranks with every number.
pub open spec fn number_rank(a: Binary64, b: Binary64) -> int {
    if binary64::less(a, b) {
        -1
    } else if binary64::less(b, a) {
        1
    } else {
        0
    }
}

/// A missing number first, then smaller ones first.
pub open spec fn optional_rank(a: Option<Binary64>, b: Option<Binary64>) -> int {
    match (a, b) {
        (None, None) => 0,
        (None, Some(_)) => -1,
        (Some(_), None) => 1,
        (Some(x), Some(y)) => number_rank(x, y),
    }
}

/// Smaller integers first.
pub open spec fn integer_rank(a: int, b: int) -> int {
    if a < b {
        -1
    } else if b < a {
        1
    } else {
        0
    }
}

/// A missing integer first, then smaller ones first.
pub open spec fn count_rank(a: Option<u32>, b: Option<u32>) -> int {
    match (a, b) {
        (None, None) => 0,
        (None, Some(_)) => -1,
        (Some(_), None) => 1,
        (Some(x), Some(y)) => integer_rank(x as int, y as int),
    }
}

/// Lexicographic order.
pub open spec fn text_rank(a: Seq<char>, b: Seq<char>) -> int {
    if text::precedes(a, b) {
        -1
    } else if text::precedes(b, a) {
        1
    } else {
        0
    }
}

/// Mounts by name, or with the largest number first.
pub open spec fn mount_rank(a: MountView, b: MountView, sort: SortKey) -> int {
    match sort {
        SortKey::Read => number_rank(b.derived.read_bps, a.derived.read_bps),
        SortKey::Write => number_rank(b.derived.write_bps, a.derived.write_bps),
        SortKey::Ops => number_rank(b.derived.ops_per_sec, a.derived.ops_per_sec),
        SortKey::Rtt => optional_rank(b.derived.avg_rtt_ms, a.derived.avg_rtt_ms),
        SortKey::Exe => optional_rank(b.derived.avg_exe_ms, a.derived.avg_exe_ms),
        SortKey::Mount => text_rank(a.counters.mountpoint@, b.counters.mountpoint@),
        SortKey::Nconnect => count_rank(b.counters.nconnect, a.counters.nconnect),
        SortKey::ObsConn => integer_rank(
            b.derived.observed_conns as int,
            a.derived.observed_conns as int,
        ),
    }
}

/// Servers with the largest number first; by calls where the key says nothing of servers.
pub open spec fn server_rank(a: ServerAgg, b: ServerAgg, sort: SortKey) -> int {
    match sort {
        SortKey::Read => number_rank(b.read_bps, a.read_bps),
        SortKey::Write => number_rank(b.write_bps, a.write_bps),
        SortKey::Ops => number_rank(b.ops_per_sec, a.ops_per_sec),
        SortKey::Rtt => optional_rank(b.avg_rtt_ms, a.avg_rtt_ms),
        SortKey::Exe => optional_rank(b.avg_exe_ms, a.avg_exe_ms),
        SortKey::ObsConn => integer_rank(b.observed_conns as int, a.observed_conns as int),
        SortKey::Mount => number_rank(b.ops_per_sec, a.ops_per_sec),
        SortKey::Nconnect => number_rank(b.ops_per_sec, a.ops_per_sec),
    }
}

/// Kinds of calls with the most frequent first.
pub open spec fn op_rank(a: OpDerived, b: OpDerived) -> int {
    number_rank(b.ops_per_sec, a.ops_per_sec)
}

fn rank_numbers(a: Binary64, b: Binary64) -> (r: i32)
    ensures
        r == number_rank(a, b),
{
    if a.is_less(b) {
        -1
    } else if b.is_less(a) {
        1
    } else {
        0
    }
}

fn rank_optional(a: Option<Binary64>, b: Option<Binary64>) -> (r: i32)
    ensures
        r == optional_rank(a, b),
{
    match (a, b) {
        (None, None) => 0,
        (None, Some(_)) => -1,
        (Some(_), None) => 1,
        (Some(x), Some(y)) => rank_numbers(x, y),
    }
}

fn rank_integers(a: u64, b: u64) -> (r: i32)
    ensures
        r == integer_rank(a as int, b as int),
{
    if a < b {
        -1
    } else if b < a {
        1
    } else {
        0
    }
}

fn rank_counts(a: Option<u32>, b: Option<u32>) -> (r: i32)
    ensures
        r == count_rank(a, b),
{
    match (a, b) {
        (None, None) => 0,
        (None, Some(_)) => -1,
        (Some(_), None) => 1,
        (Some(x), Some(y)) => rank_integers(x as u64, y as u64),
    }
}

fn rank_texts(a: &str, b: &str) -> (r: i32)
    ensures
        r == text_rank(a@, b@),
{
    if is_before(a, b) {
        -1
    } else if is_before(b, a) {
        1
    } else {
        0
    }
}

/// How two mounts rank.
fn rank_mounts(a: &MountView, b: &MountView, sort: SortKey) -> (r: i32)
    ensures
        r == mount_rank(*a, *b, sort),
{
    match sort {
        SortKey::Read => rank_numbers(b.derived.read_bps, a.derived.read_bps),
        SortKey::Write => rank_numbers(b.derived.write_bps, a.derived.write_bps),
        SortKey::Ops => rank_numbers(b.derived.ops_per_sec, a.derived.ops_per_sec),
        SortKey::Rtt => rank_optional(b.derived.avg_rtt_ms, a.derived.avg_rtt_ms),
        SortKey::Exe => rank_optional(b.derived.avg_exe_ms, a.derived.avg_exe_ms),
        SortKey::Mount => rank_texts(a.counters.mountpoint.as_str(), b.counters.mountpoint.as_str()),
        SortKey::Nconnect => rank_counts(b.counters.nconnect, a.counters.nconnect),
        SortKey::ObsConn => rank_integers(b.derived.observed_conns, a.derived.observed_conns),
    }
}

/// How two servers rank.
fn rank_servers(a: &ServerAgg, b: &ServerAgg, sort: SortKey) -> (r: i32)
    ensures
        r == server_rank(*a, *b, sort),
{
    match sort {
        SortKey::Read => rank_numbers(b.read_bps, a.read_bps),
        SortKey::Write => rank_numbers(b.write_bps, a.write_bps),
        SortKey::Ops => rank_numbers(b.ops_per_sec, a.ops_per_sec),
        SortKey::Rtt => rank_optional(b.avg_rtt_ms, a.avg_rtt_ms),
        SortKey::Exe => rank_optional(b.avg_exe_ms, a.avg_exe_ms),
        SortKey::ObsConn => rank_integers(b.observed_conns, a.observed_conns),
        SortKey::Mount => rank_numbers(b.ops_per_sec, a.ops_per_sec),
        SortKey::Nconnect => rank_numbers(b.ops_per_sec, a.ops_per_sec),
    }
}

/// How two mounts compare.
pub fn compare_mounts_by(a: &MountView, b: &MountView, sort: SortKey) -> (r: Ordering)
    ensures
        match r {
            Ordering::Less => mount_rank(*a, *b, sort) < 0,
            Ordering::Equal => mount_rank(*a, *b, sort) == 0,
            Ordering::Greater => mount_rank(*a, *b, sort) > 0,
        },
{
    let rank: i32 = rank_mounts(a, b, sort);
    if rank < 0 {
        Ordering::Less
    } else if rank == 0 {
        Ordering::Equal
    } else {
        Ordering::Greater
    }
}

/// Indices into a list of mounts, ordered as the mounts are.
pub struct MountOrder<'a> {
    pub mounts: &'a Vec<MountView>,
    pub sort: SortKey,
}

/// Whether the mount at index `i` comes later than that at index `j`.
pub open spec fn mount_later(mounts: Seq<MountView>, sort: SortKey, i: usize, j: usize) -> bool {
    i < mounts.len() && j < mounts.len() && mount_rank(mounts[i as int], mounts[j as int], sort) > 0
}

impl<'a> Order<usize> for MountOrder<'a> {
    open spec fn later(self, a: usize, b: usize) -> bool {
        mount_later(self.mounts@, self.sort, a, b)
    }

    fn is_later(&self, a: &usize, b: &usize) -> (r: bool) {
        *a < self.mounts.len() && *b < self.mounts.len() && rank_mounts(
            &self.mounts[*a],
            &self.mounts[*b],
            self.sort,
        ) > 0
    }
}

/// The order of servers.
pub struct ServerOrder {
    pub sort: SortKey,
}

impl Order<ServerAgg> for ServerOrder {
    open spec fn later(self, a: ServerAgg, b: ServerAgg) -> bool {
        server_rank(a, b, self.sort) > 0
    }

    fn is_later(&self, a: &ServerAgg, b: &ServerAgg) -> (r: bool) {
        rank_servers(a, b, self.sort) > 0
    }
}

/// The order of kinds of calls.
pub struct OpOrder;

impl Order<OpDerived> for OpOrder {
    open spec fn later(self, a: OpDerived, b: OpDerived) -> bool {
        op_rank(a, b) > 0
    }

    fn is_later(&self, a: &OpDerived, b: &OpDerived) -> (r: bool) {
        rank_numbers(b.ops_per_sec, a.ops_per_sec) > 0
    }
}

/// Sorts servers by a key, keeping the order of equals.
pub fn sort_servers(servers: &mut Vec<ServerAgg>, sort: SortKey)
    ensures
        order::sorted(old(servers)@, final(servers)@, |a: ServerAgg, b: ServerAgg| server_rank(a, b, sort) > 0),
{
    let by: ServerOrder = ServerOrder { sort };
    order::sort(servers, &by);
    proof {
        lemma_same_relation(
            old(servers)@,
            servers@,
            |a: ServerAgg, b: ServerAgg| by.later(a, b),
            |a: ServerAgg, b: ServerAgg| server_rank(a, b, sort) > 0,
        );
    }
}

/// Sorts kinds of calls with the most frequent first, keeping the order of equals.
pub fn sort_ops(ops: &mut Vec<OpDerived>)
    ensures
        order::sorted(old(ops)@, final(ops)@, |a: OpDerived, b: OpDerived| op_rank(a, b) > 0),
{
    let by: OpOrder = OpOrder;
    order::sort(ops, &by);
    proof {
        lemma_same_relation(
            old(ops)@,
            ops@,
            |a: OpDerived, b: OpDerived| by.later(a, b),
            |a: OpDerived, b: OpDerived| op_rank(a, b) > 0,
        );
    }
}

/// Sorts indices of mounts by a key, keeping the order of equals.
pub fn sort_mounts(idx: &mut Vec<usize>, mounts: &Vec<MountView>, sort: SortKey)
    ensures
        order::sorted(old(idx)@, final(idx)@, |i: usize, j: usize| mount_later(mounts@, sort, i, j)),
{
    let by: MountOrder = MountOrder { mounts, sort };
    order::sort(idx, &by);
    proof {
        lemma_same_relation(
            old(idx)@,
            idx@,
            |i: usize, j: usize| by.later(i, j),
            |i: usize, j: usize| mount_later(mounts@, sort, i, j),
        );
    }
}

proof fn lemma_same_relation<T>(
    before: Seq<T>,
    after: Seq<T>,
    p: spec_fn(T, T) -> bool,
    q: spec_fn(T, T) -> bool,
)
    requires
        order::sorted(before, after, p),
        forall|a: T, b: T| #[trigger] p(a, b) == q(a, b),
    ensures
        order::sorted(before, after, q),
{
    assert(p =~= q);
}

/// Whether the numbers that the key compares are numbers.
pub open spec fn comparable(m: MountView, sort: SortKey) -> bool {
    match sort {
        SortKey::Read => !m.derived.read_bps.nan(),
        SortKey::Write => !m.derived.write_bps.nan(),
        SortKey::Ops => !m.derived.ops_per_sec.nan(),
        SortKey::Rtt => m.derived.avg_rtt_ms matches Some(x) ==> !x.nan(),
        SortKey::Exe => m.derived.avg_exe_ms matches Some(x) ==> !x.nan(),
        _ => true,
    }
}

/// Numbers are in one order: no two are less than each other, and what is not less than what is
/// not less than a third is not less than it.
pub proof fn law_numbers_ordered(a: Binary64, b: Binary64, c: Binary64)
    requires
        !a.nan(),
        !b.nan(),
        !c.nan(),
    ensures
        !(binary64::less(a, b) && binary64::less(b, a)),
        !binary64::less(a, b) && !binary64::less(b, c) ==> !binary64::less(a, c),
{
}

/// Mounts whose numbers are numbers are in one order under every key.
pub proof fn law_mounts_ordered(mounts: Seq<MountView>, idx: Seq<usize>, sort: SortKey)
    requires
        forall|i: int| 0 <= i < idx.len() ==> #[trigger] idx[i] < mounts.len(),
        forall|i: int| 0 <= i < mounts.len() ==> comparable(#[trigger] mounts[i], sort),
    ensures
        order::orders(idx, |i: usize, j: usize| mount_later(mounts, sort, i, j)),
{
    let later = |i: usize, j: usize| mount_later(mounts, sort, i, j);
    assert forall|i: int, j: int| 0 <= i < idx.len() && 0 <= j < idx.len() implies !(#[trigger] later(
        idx[i],
        idx[j],
    ) && later(idx[j], idx[i])) by {
        let a = mounts[idx[i] as int];
        let b = mounts[idx[j] as int];
        assert(comparable(a, sort) && comparable(b, sort));
        text::law_precedes_total(a.counters.mountpoint@, b.counters.mountpoint@);
    }
    assert forall|i: int, j: int, k: int|
        0 <= i < idx.len() && 0 <= j < idx.len() && 0 <= k < idx.len() && !(#[trigger] later(
            idx[i],
            idx[j],
        )) && !(#[trigger] later(idx[j], idx[k])) implies !later(idx[i], idx[k]) by {
        let a = mounts[idx[i] as int];
        let b = mounts[idx[j] as int];
        let c = mounts[idx[k] as int];
        assert(comparable(a, sort) && comparable(b, sort) && comparable(c, sort));
        if sort == SortKey::Mount {
            lemma_texts_ordered(
                a.counters.mountpoint@,
                b.counters.mountpoint@,
                c.counters.mountpoint@,
            );
        }
    }
}

proof fn lemma_texts_ordered(a: Seq<char>, b: Seq<char>, c: Seq<char>)
    requires
        text_rank(a, b) <= 0,
        text_rank(b, c) <= 0,
    ensures
        text_rank(a, c) <= 0,
{
    text::law_precedes_total(a, b);
    text::law_precedes_total(b, c);
    text::law_precedes_total(a, c);
    if text::precedes(a, b) && text::precedes(b, c) {
        text::law_precedes_transitive(a, b, c);
    }
}

/// Whether the numbers that the key compares are numbers.
pub open spec fn comparable_server(s: ServerAgg, sort: SortKey) -> bool {
    match sort {
        SortKey::Read => !s.read_bps.nan(),
        SortKey::Write => !s.write_bps.nan(),
        SortKey::Rtt => s.avg_rtt_ms matches Some(x) ==> !x.nan(),
        SortKey::Exe => s.avg_exe_ms matches Some(x) ==> !x.nan(),
        SortKey::ObsConn => true,
        _ => !s.ops_per_sec.nan(),
    }
}

/// Servers whose numbers are numbers are in one order under every key.
pub proof fn law_servers_ordered(servers: Seq<ServerAgg>, sort: SortKey)
    requires
        forall|i: int| 0 <= i < servers.len() ==> comparable_server(#[trigger] servers[i], sort),
    ensures
        order::orders(servers, |a: ServerAgg, b: ServerAgg| server_rank(a, b, sort) > 0),
{
}

/// Kinds of calls whose rates are numbers are in one order.
pub proof fn law_ops_ordered(ops: Seq<OpDerived>)
    requires
        forall|i: int| 0 <= i < ops.len() ==> !(#[trigger] ops[i]).ops_per_sec.nan(),
    ensures
        order::orders(ops, |a: OpDerived, b: OpDerived| op_rank(a, b) > 0),
{
}

} // verus!
