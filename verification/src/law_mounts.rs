//! That what the kernel says of the mounts is read as the kernel writes it.

use crate::binary64;
use crate::law_tables;
use crate::mountstats;
use crate::mountstats::{Block, Progress};
use crate::ports;
use crate::ports::NumberFault;
use crate::procfs;
use crate::search;
use crate::table;
use crate::text;
use crate::types::{MountCounters, OpCounters, RpcClient};
use vstd::prelude::*;

verus! {

/// Whether a character is not in a text.
pub open spec fn lacks(s: Seq<char>, c: char) -> bool {
    forall|i: int| 0 <= i < s.len() ==> #[trigger] s[i] != c
}

/// A value stored under a name is found under it, and other names keep theirs.
pub proof fn law_renamed<V>(s: Seq<(Seq<char>, V)>, name: Seq<char>, value: V, other: Seq<char>)
    ensures
        procfs::named_value(procfs::renamed(s, name, value), name) == Some(value),
        other != name ==> procfs::named_value(procfs::renamed(s, name, value), other)
            == procfs::named_value(s, other),
{
    lemma_renamed(s, (name, other), value);
}

proof fn lemma_renamed<V>(s: Seq<(Seq<char>, V)>, names: (Seq<char>, Seq<char>), value: V)
    ensures
        procfs::named_value(procfs::renamed(s, names.0, value), names.0) == Some(value),
        names.1 != names.0 ==> procfs::named_value(procfs::renamed(s, names.0, value), names.1)
            == procfs::named_value(s, names.1),
{
    let after = procfs::renamed(s, names.0, value);
    let p = |e: (Seq<char>, V)| e.0 == names.0;
    let q = |e: (Seq<char>, V)| e.0 == names.1;
    search::lemma_first(s, p);
    search::lemma_first(s, q);
    match search::first(s, p) {
        Some(i) => {
            search::lemma_first_is(after, p, i);
            search::lemma_first_same(s, q, after, q);
        },
        None => {
            search::lemma_first_is(after, p, s.len() as int);
            if names.1 != names.0 {
                match search::first(s, q) {
                    Some(j) => {
                        search::lemma_first_is(after, q, j);
                    },
                    None => {
                        search::lemma_first_none(after, q);
                    },
                }
            }
        },
    }
}

/// An option with a value is read back as its name and its value, whatever equals signs the value
/// holds, and a bare name as that name without a value.
pub proof fn law_option_parts(name: Seq<char>, value: Seq<char>)
    requires
        lacks(name, '='),
    ensures
        procfs::option_parts(name + seq!['='] + value) == (name, value),
        procfs::option_parts(name) == (name, Seq::<char>::empty()),
{
    let p = |c: char| c == '=';
    let s = name + seq!['='] + value;
    assert forall|j: int| 0 <= j < name.len() implies !p(#[trigger] s[j]) by {
        assert(s[j] == name[j]);
    }
    search::lemma_first_is(s, p, name.len() as int);
    search::lemma_first_none(name, p);
    assert(s.take(name.len() as int) =~= name);
    assert(s.skip(name.len() as int + 1) =~= value);
}

proof fn lemma_lacks(name: Seq<char>, value: Seq<char>, c: char)
    requires
        lacks(name, c),
        lacks(value, c),
        c != '=',
    ensures
        lacks(name + seq!['='] + value, c),
{
    let s = name + seq!['='] + value;
    assert forall|i: int| 0 <= i < s.len() implies #[trigger] s[i] != c by {
        if i < name.len() {
            assert(s[i] == name[i]);
        } else if i > name.len() {
            assert(s[i] == value[i - name.len() - 1]);
        }
    }
}

/// In a list with commas between the options the last one counts under its name, and the other
/// names have the values that they had without it.
pub proof fn law_options_read_back(list: Seq<char>, name: Seq<char>, value: Seq<char>, other: Seq<char>)
    requires
        lacks(name, '='),
        lacks(name, ','),
        lacks(value, ','),
        other != name,
    ensures
        procfs::named_value(procfs::options_in(name + seq!['='] + value), name) == Some(value),
        procfs::named_value(procfs::options_in(name), name) == Some(Seq::<char>::empty()),
        procfs::named_value(procfs::options_in(name + seq!['='] + value), other) is None,
        procfs::named_value(procfs::options_in(list + seq![','] + (name + seq!['='] + value)), name) == Some(value),
        procfs::named_value(procfs::options_in(list + seq![','] + (name + seq!['='] + value)), other)
            == procfs::named_value(procfs::options_in(list), other),
        procfs::named_value(procfs::options_in(list + seq![','] + name), name) == Some(Seq::<char>::empty()),
        procfs::named_value(procfs::options_in(list + seq![','] + name), other) == procfs::named_value(
            procfs::options_in(list),
            other,
        ),
{
    let one = name + seq!['='] + value;
    lemma_lacks(name, value, ',');
    lemma_last_option(list, one, other);
    lemma_last_option(list, name, other);
    law_option_parts(name, value);
}

proof fn lemma_last_option(list: Seq<char>, one: Seq<char>, other: Seq<char>)
    requires
        lacks(one, ','),
    ensures
        ({
            let (name, value) = procfs::option_parts(one);
            &&& procfs::named_value(procfs::options_in(one), name) == Some(value)
            &&& other != name ==> procfs::named_value(procfs::options_in(one), other) is None
            &&& procfs::named_value(procfs::options_in(list + seq![','] + one), name) == Some(value)
            &&& other != name ==> procfs::named_value(procfs::options_in(list + seq![','] + one), other)
                == procfs::named_value(procfs::options_in(list), other)
        }),
{
    let (name, value) = procfs::option_parts(one);
    let none = Seq::<(Seq<char>, Seq<char>)>::empty();
    ports::lemma_piece(one, ',');
    assert(seq![one].drop_last() =~= Seq::empty());
    assert(procfs::options_from(seq![one].drop_last()) =~= none);
    assert(procfs::options_in(one) == procfs::renamed(none, name, value));
    law_renamed(none, name, value, other);
    assert(procfs::named_value(none, other) is None);
    ports::lemma_pieces_append(list, one, ',');
    let before = ports::pieces(list, ',');
    assert(before.push(one).drop_last() =~= before);
    law_renamed(procfs::options_in(list), name, value, other);
}

/// A line of the list of mounts gives the mountpoint in its second word the options in its fourth,
/// where its third word is `nfs` or `nfs4`, and says nothing otherwise; the other mountpoints keep
/// their options.
pub proof fn law_mount_line(lines: Seq<Seq<char>>, line: Seq<char>, other: Seq<char>)
    ensures
        ({
            let w = procfs::words(line);
            let before = procfs::mounts_in(lines);
            let after = procfs::mounts_in(lines.push(line));
            if w.len() >= 4 && (w[2] == seq!['n', 'f', 's'] || w[2] == seq!['n', 'f', 's', '4']) {
                &&& procfs::named_value(after, w[1]) == Some(procfs::options_in(w[3]))
                &&& other != w[1] ==> procfs::named_value(after, other) == procfs::named_value(before, other)
            } else {
                after == before
            }
        }),
{
    lemma_kinds();
    assert(lines.push(line).drop_last() =~= lines);
    let w = procfs::words(line);
    if w.len() >= 4 {
        law_renamed(procfs::mounts_in(lines), w[1], procfs::options_in(w[3]), other);
    }
}

proof fn lemma_kinds()
    ensures
        "nfs"@ == seq!['n', 'f', 's'],
        "nfs4"@ == seq!['n', 'f', 's', '4'],
        "rpc"@ == seq!['r', 'p', 'c'],
        "device"@.last() == 'e',
        "device"@.len() == 6,
        "per-op"@.last() == 'p',
        "per-op"@.len() == 6,
{
    reveal_strlit("nfs");
    reveal_strlit("nfs4");
    reveal_strlit("rpc");
    reveal_strlit("device");
    reveal_strlit("per-op");
    assert("nfs"@ =~= seq!['n', 'f', 's']);
    assert("nfs4"@ =~= seq!['n', 'f', 's', '4']);
    assert("rpc"@ =~= seq!['r', 'p', 'c']);
}

/// A line of the list of mounts with devices gives the mountpoint in its fifth word the device in
/// its third, whose major and minor numbers stand with a colon between them: the minor number is
/// the lower twenty bits.
pub proof fn law_device_line(lines: Seq<Seq<char>>, line: Seq<char>, major: u32, minor: u32, other: Seq<char>)
    requires
        procfs::words(line).len() >= 5,
        procfs::words(line)[2] == text::decimal(major as nat) + seq![':'] + text::decimal(minor as nat),
        major < 0x1000,
        minor < 0x10_0000,
    ensures
        ({
            let w = procfs::words(line);
            let after = procfs::devices_in(lines.push(line));
            &&& procfs::named_value(after, w[4]) matches Some(dev) && dev / 0x10_0000 == major && dev % 0x10_0000
                == minor
            &&& other != w[4] ==> procfs::named_value(after, other) == procfs::named_value(
                procfs::devices_in(lines),
                other,
            )
        }),
{
    assert(lines.push(line).drop_last() =~= lines);
    let w = procfs::words(line);
    ports::lemma_decimal_digits(major as nat);
    ports::lemma_decimal_digits(minor as nat);
    ports::lemma_piece(text::decimal(major as nat), ':');
    ports::lemma_pieces_append(text::decimal(major as nat), text::decimal(minor as nat), ':');
    ports::law_decimal_read_back(major as nat, 0xfff);
    ports::law_decimal_read_back(minor as nat, 0xf_ffff);
    let dev = (major * 0x10_0000 + minor) as u32;
    assert(procfs::device_number(w[2]) == Some(dev));
    law_renamed(procfs::devices_in(lines), w[4], dev, other);
}

/// A line of the list of mounts with devices that has fewer than five words, or a third word
/// without a colon, says nothing.
pub proof fn law_no_device_line(lines: Seq<Seq<char>>, line: Seq<char>)
    requires
        procfs::words(line).len() < 5 || lacks(procfs::words(line)[2], ':'),
    ensures
        procfs::devices_in(lines.push(line)) == procfs::devices_in(lines),
{
    assert(lines.push(line).drop_last() =~= lines);
    let w = procfs::words(line);
    if w.len() >= 5 {
        ports::lemma_piece(w[2], ':');
    }
}

/// The three counters of the RPC client are read back in their order.
pub proof fn law_rpc_read_back(line: Seq<char>, calls: u64, retrans: u64, authrefresh: u64)
    ensures
        ({
            let w = procfs::words(line);
            &&& w.len() >= 4 && w[0] == seq!['r', 'p', 'c'] && w[1] == text::decimal(calls as nat) && w[2]
                == text::decimal(retrans as nat) && w[3] == text::decimal(authrefresh as nat)
                ==> procfs::rpc_counters(line) == Some(RpcClient { calls, retrans, authrefresh })
            &&& w.len() < 4 || w[0] != seq!['r', 'p', 'c'] ==> procfs::rpc_counters(line) is None
        }),
{
    lemma_kinds();
    ports::law_decimal_read_back(calls as nat, u64::MAX as nat);
    ports::law_decimal_read_back(retrans as nat, u64::MAX as nat);
    ports::law_decimal_read_back(authrefresh as nat, u64::MAX as nat);
}

/// Whether the words are a name with a colon and counters behind it: the calls first, the bytes
/// sent and received in the fourth and fifth place, the times in the seventh and eighth.
pub open spec fn is_counters(
    w: Seq<Seq<char>>,
    name: Seq<char>,
    calls: u64,
    sent: u64,
    received: u64,
    rtt: u64,
    exe: u64,
) -> bool {
    &&& w.len() >= 9
    &&& w[0] == name + seq![':']
    &&& w[1] == text::decimal(calls as nat)
    &&& w[4] == text::decimal(sent as nat)
    &&& w[5] == text::decimal(received as nat)
    &&& w[7] == text::decimal(rtt as nat)
    &&& w[8] == text::decimal(exe as nat)
}

/// The counters of a kind of call are read back from the line that the kernel writes them in,
/// whatever stands in the other fields.
pub proof fn law_counters_read_back(
    w: Seq<Seq<char>>,
    name: Seq<char>,
    calls: u64,
    sent: u64,
    received: u64,
    rtt: u64,
    exe: u64,
)
    requires
        is_counters(w, name, calls, sent, received, rtt, exe),
    ensures
        mountstats::op_fields(w) matches Ok(op) && op.op == name && op.calls == calls && op.bytes_sent == sent
            && op.bytes_recv == received && op.rtt_ms_total == binary64::whole(rtt as nat) && op.exe_ms_total
            == binary64::whole(exe as nat),
{
    ports::law_decimal_read_back(calls as nat, u64::MAX as nat);
    ports::law_decimal_read_back(sent as nat, u64::MAX as nat);
    ports::law_decimal_read_back(received as nat, u64::MAX as nat);
    ports::law_decimal_read_back(rtt as nat, u64::MAX as nat);
    ports::law_decimal_read_back(exe as nat, u64::MAX as nat);
    assert(w[0].drop_last() =~= name);
}

/// A line that ends before a counter has zero for it.
pub proof fn law_missing_counters(w: Seq<Seq<char>>, name: Seq<char>, calls: u64)
    requires
        2 <= w.len() <= 4,
        w[0] == name + seq![':'],
        w[1] == text::decimal(calls as nat),
    ensures
        mountstats::op_fields(w) matches Ok(op) && op.op == name && op.calls == calls && op.bytes_sent == 0
            && op.bytes_recv == 0 && op.rtt_ms_total == binary64::whole(0) && op.exe_ms_total
            == binary64::whole(0),
{
    ports::law_decimal_read_back(calls as nat, u64::MAX as nat);
    assert(w[0].drop_last() =~= name);
}

/// A field that is no number makes the line a fault of its kind of call, and the first such field
/// says which.
pub proof fn law_counter_fault(p: Progress, line: Seq<char>, name: Seq<char>, fault: NumberFault)
    requires
        p.current is Some,
        p.in_ops,
        name.len() > 0,
        procfs::words(line).len() >= 2,
        procfs::words(line)[0] == name + seq![':'],
        name != seq!['o', 'p', 't', 's'],
        ports::number_value(procfs::words(line)[1], u64::MAX as nat) == Err::<nat, NumberFault>(fault),
    ensures
        mountstats::advanced(p, line) == Err::<Progress, (Seq<char>, NumberFault)>((name, fault)),
{
    lemma_op_line(procfs::words(line), name);
}

proof fn lemma_op_line(w: Seq<Seq<char>>, name: Seq<char>)
    requires
        name.len() > 0,
        w.len() >= 2,
        w[0] == name + seq![':'],
        name != seq!['o', 'p', 't', 's'],
    ensures
        !mountstats::is_header(w),
        w[0] != "opts:"@,
        w[0] != "per-op"@,
        mountstats::is_op(w),
        w[0].drop_last() == name,
{
    lemma_kinds();
    reveal_strlit("opts:");
    assert("opts:"@.drop_last() =~= seq!['o', 'p', 't', 's']);
    assert(w[0].last() == ':');
    assert(w[0].drop_last() =~= name);
}

/// Whether the mount that is being read is the same one as before, with one more line.
pub open spec fn reads_on(p: Progress, q: Progress, line: Seq<char>) -> bool {
    match (p.current, q.current) {
        (Some(b), Some(c)) => {
            &&& q.done == p.done
            &&& c.device == b.device
            &&& c.mountpoint == b.mountpoint
            &&& c.fstype == b.fstype
            &&& c.raw == b.raw + seq!['\n'] + line
        },
        _ => false,
    }
}

/// A line of counters in the statistics of a mount gives that mount these counters under their
/// name; its other counters, what else is known of it and the mounts before it stay.
pub proof fn law_counters_line(
    p: Progress,
    line: Seq<char>,
    name: Seq<char>,
    calls: u64,
    sent: u64,
    received: u64,
    rtt: u64,
    exe: u64,
    other: Seq<char>,
)
    requires
        p.current is Some,
        p.in_ops,
        name.len() > 0,
        name != seq!['o', 'p', 't', 's'],
        other != name,
        is_counters(procfs::words(line), name, calls, sent, received, rtt, exe),
    ensures
        mountstats::advanced(p, line) matches Ok(q) && reads_on(p, q, line) && q.in_ops && (q.current->0).options
            == (p.current->0).options && procfs::named_value((q.current->0).ops, other) == procfs::named_value(
            (p.current->0).ops,
            other,
        ) && (procfs::named_value((q.current->0).ops, name) matches Some(op) && op.op == name && op.calls == calls
            && op.bytes_sent == sent && op.bytes_recv == received && op.rtt_ms_total == binary64::whole(
            rtt as nat,
        ) && op.exe_ms_total == binary64::whole(exe as nat)),
{
    let w = procfs::words(line);
    lemma_op_line(w, name);
    law_counters_read_back(w, name, calls, sent, received, rtt, exe);
    law_renamed((p.current->0).ops, name, mountstats::op_fields(w)->Ok_0, other);
}

/// The first line of a mount's statistics names its device, its mountpoint and its kind of file
/// system; the mount before it is complete, and where the kind is another than `nfs` and `nfs4`
/// its statistics are passed over.
pub proof fn law_first_line(p: Progress, line: Seq<char>)
    requires
        procfs::words(line).len() >= 8,
        procfs::words(line)[0] == "device"@,
        procfs::words(line)[2] == "mounted"@,
        procfs::words(line)[3] == "on"@,
        procfs::words(line)[5] == "with"@,
        procfs::words(line)[6] == "fstype"@,
    ensures
        mountstats::advanced(p, line) matches Ok(q) && !q.in_ops && q.done == match p.current {
            Some(b) => p.done.push(b),
            None => p.done,
        } && match q.current {
            Some(c) => {
                let w = procfs::words(line);
                &&& w[7] == seq!['n', 'f', 's'] || w[7] == seq!['n', 'f', 's', '4']
                &&& c.device == w[1]
                &&& c.mountpoint == w[4]
                &&& c.fstype == w[7]
                &&& c.options.len() == 0
                &&& c.ops.len() == 0
                &&& c.raw == line
            },
            None => procfs::words(line)[7] != seq!['n', 'f', 's'] && procfs::words(line)[7] != seq![
                'n',
                'f',
                's',
                '4',
            ],
        },
{
    lemma_kinds();
}

/// In a mount's statistics the word behind `opts:` gives the options, `per-op` starts the lines of
/// counters, and before it a name with a colon says nothing; outside every mount no line but a
/// first one says anything.
pub proof fn law_other_lines(p: Progress, line: Seq<char>)
    requires
        procfs::words(line).len() >= 1,
        procfs::words(line)[0] != "device"@,
    ensures
        p.current is None ==> mountstats::advanced(p, line) == Ok::<Progress, (Seq<char>, NumberFault)>(p),
        p.current matches Some(b) ==> {
            let w = procfs::words(line);
            &&& w[0] == "opts:"@ && w.len() >= 2 ==> (mountstats::advanced(p, line) matches Ok(q) && reads_on(
                p,
                q,
                line,
            ) && q.in_ops == p.in_ops && (q.current->0).options == procfs::options_in(w[1]) && (q.current->0).ops
                == b.ops)
            &&& w[0] == "per-op"@ ==> (mountstats::advanced(p, line) matches Ok(q) && reads_on(p, q, line)
                && q.in_ops && (q.current->0).options == b.options && (q.current->0).ops == b.ops)
            &&& w[0] != "opts:"@ && w[0] != "per-op"@ && (!p.in_ops || lacks(w[0], ':') || w.len() < 2 || w[0]
                == seq![':']) ==> (mountstats::advanced(p, line) matches Ok(q) && reads_on(p, q, line) && q.in_ops
                == p.in_ops && (q.current->0).options == b.options && (q.current->0).ops == b.ops)
        },
{
    reveal_strlit("opts:");
    reveal_strlit("per-op");
    let w = procfs::words(line);
    assert("opts:"@[0] != "per-op"@[0]);
    if lacks(w[0], ':') && w[0].len() > 0 {
        assert(w[0][w[0].len() - 1] != ':');
    }
}

/// A mount has what its statistics say: its counters by name, its options, and in fields of their
/// own the version, the transport and the number of connections that the options give.
pub proof fn law_mount_has_block(m: MountCounters, b: Block, key: String, connections: u32)
    requires
        mountstats::is_mount(m, b),
    ensures
        m.device@ == b.device,
        m.mountpoint@ == b.mountpoint,
        m.fstype@ == b.fstype,
        m.raw_block@ == b.raw,
        match table::lookup(m.options.entries@, key@) {
            Some(v) => procfs::named_value(b.options, key@) == Some(v@),
            None => procfs::named_value(b.options, key@) is None,
        },
        match table::lookup(m.ops.entries@, key@) {
            Some(op) => procfs::named_value(b.ops, key@) matches Some(o) && o.op == op.op@ && o.calls == op.calls
                && o.bytes_sent == op.bytes_sent && o.bytes_recv == op.bytes_recv && o.rtt_ms_total
                == op.rtt_ms_total && o.exe_ms_total == op.exe_ms_total,
            None => procfs::named_value(b.ops, key@) is None,
        },
        match m.vers {
            Some(v) => procfs::named_value(b.options, "vers"@) == Some(v@),
            None => procfs::named_value(b.options, "vers"@) is None,
        },
        match m.proto {
            Some(v) => procfs::named_value(b.options, "proto"@) == Some(v@),
            None => procfs::named_value(b.options, "proto"@) is None,
        },
        procfs::named_value(b.options, "nconnect"@) == Some(text::decimal(connections as nat)) ==> m.nconnect
            == Some(connections),
        procfs::named_value(b.options, "nconnect"@) is None ==> m.nconnect is None,
        m.addr is None,
        m.clientaddr is None,
        m.st_dev is None,
{
    procfs::lemma_named_lookup(m.options.entries@, key, |v: String| v@);
    procfs::lemma_named_lookup(m.ops.entries@, key, |op: OpCounters| mountstats::op_view(op));
    ports::law_decimal_read_back(connections as nat, u32::MAX as nat);
}

/// The line that the kernel writes, words with blanks between them behind white space, is read
/// back as the counters in it.
pub proof fn law_counters_text(
    lead: Seq<char>,
    w: Seq<Seq<char>>,
    name: Seq<char>,
    calls: u64,
    sent: u64,
    received: u64,
    rtt: u64,
    exe: u64,
)
    requires
        is_counters(w, name, calls, sent, received, rtt, exe),
        forall|i: int| 0 <= i < lead.len() ==> ports::is_white(#[trigger] lead[i]),
        forall|i: int| 0 <= i < w.len() ==> law_tables::is_word(#[trigger] w[i]),
    ensures
        procfs::words(lead + law_tables::spaced(w)) == w,
        mountstats::op_fields(procfs::words(lead + law_tables::spaced(w))) matches Ok(op) && op.op == name
            && op.calls == calls && op.bytes_sent == sent && op.bytes_recv == received && op.rtt_ms_total
            == binary64::whole(rtt as nat) && op.exe_ms_total == binary64::whole(exe as nat),
{
    law_tables::law_words_read_back(lead, w);
    law_counters_read_back(w, name, calls, sent, received, rtt, exe);
}

/// The mount that is read last has the counters of the last line under their name, and under
/// other names what it had before.
pub proof fn law_counters_in_mount(
    before: Seq<MountCounters>,
    after: Seq<MountCounters>,
    lines: Seq<Seq<char>>,
    line: Seq<char>,
    key: String,
    calls: u64,
    sent: u64,
    received: u64,
    rtt: u64,
    exe: u64,
    other: String,
)
    requires
        mountstats::progress(lines) is Ok,
        (mountstats::progress(lines)->Ok_0).current is Some,
        (mountstats::progress(lines)->Ok_0).in_ops,
        mountstats::are_mounts(before, mountstats::all_blocks(mountstats::progress(lines)->Ok_0)),
        mountstats::progress(lines.push(line)) is Ok,
        mountstats::are_mounts(after, mountstats::all_blocks(mountstats::progress(lines.push(line))->Ok_0)),
        key@.len() > 0,
        key@ != seq!['o', 'p', 't', 's'],
        other@ != key@,
        is_counters(procfs::words(line), key@, calls, sent, received, rtt, exe),
    ensures
        before.len() > 0,
        after.len() == before.len(),
        table::lookup(after.last().ops.entries@, key@) matches Some(op) && op.op@ == key@ && op.calls == calls
            && op.bytes_sent == sent && op.bytes_recv == received && op.rtt_ms_total == binary64::whole(
            rtt as nat,
        ) && op.exe_ms_total == binary64::whole(exe as nat),
        match table::lookup(before.last().ops.entries@, other@) {
            Some(o) => table::lookup(after.last().ops.entries@, other@) matches Some(op) && op.calls == o.calls
                && op.bytes_sent == o.bytes_sent && op.bytes_recv == o.bytes_recv && op.rtt_ms_total
                == o.rtt_ms_total && op.exe_ms_total == o.exe_ms_total,
            None => table::lookup(after.last().ops.entries@, other@) is None,
        },
        after.last().device@ == before.last().device@,
        after.last().mountpoint@ == before.last().mountpoint@,
        after.last().fstype@ == before.last().fstype@,
{
    let p = mountstats::progress(lines)->Ok_0;
    assert(lines.push(line).drop_last() =~= lines);
    law_counters_line(p, line, key@, calls, sent, received, rtt, exe, other@);
    let q = mountstats::progress(lines.push(line))->Ok_0;
    let b = p.current->0;
    let c = q.current->0;
    let n = before.len() - 1;
    assert(mountstats::all_blocks(p)[n] == b);
    assert(mountstats::all_blocks(q)[n] == c);
    assert(mountstats::is_mount(before[n], b));
    assert(mountstats::is_mount(after[n], c));
    law_mount_has_block(before[n], b, other, 0);
    law_mount_has_block(after[n], c, other, 0);
    law_mount_has_block(after[n], c, key, 0);
}

} // verus!
