//! The kernel's statistics of the mounts.

use crate::binary64;
use crate::binary64::Binary64;
use crate::ports;
use crate::ports::{parse_number, split, NumberFault};
use crate::procfs;
use crate::procfs::{is_word, parse_options, words_of};
use crate::table::Table;
use crate::text::{chars_of, text_of};
use crate::types::{MountCounters, OpCounters};
use vstd::prelude::*;
use vstd::string::*;

verus! {

/// The counters of one kind of call.
pub struct OpView {
    pub op: Seq<char>,
    pub calls: u64,
    pub bytes_sent: u64,
    pub bytes_recv: u64,
    pub rtt_ms_total: Binary64,
    pub exe_ms_total: Binary64,
}

/// The counters of one kind of call, with its name as characters.
pub open spec fn op_view(op: OpCounters) -> OpView {
    OpView {
        op: op.op@,
        calls: op.calls,
        bytes_sent: op.bytes_sent,
        bytes_recv: op.bytes_recv,
        rtt_ms_total: op.rtt_ms_total,
        exe_ms_total: op.exe_ms_total,
    }
}

/// What the statistics say of one mount.
pub struct Block {
    pub device: Seq<char>,
    pub mountpoint: Seq<char>,
    pub fstype: Seq<char>,
    pub options: Seq<(Seq<char>, Seq<char>)>,
    pub ops: Seq<(Seq<char>, OpView)>,
    pub raw: Seq<char>,
}

/// The number in a field; zero where the line ends before it.
pub open spec fn field(w: Seq<Seq<char>>, i: int) -> Result<nat, NumberFault> {
    if i < w.len() {
        ports::number_value(w[i], u64::MAX as nat)
    } else {
        Ok(0)
    }
}

/// The counters in the words of a line: the name with a colon, the calls, two numbers that are
/// passed over, the bytes sent and received, one passed over, and the times in milliseconds from
/// sending to the reply and from the request to its end. The fault is that of the first field
/// that is no number.
pub open spec fn op_fields(w: Seq<Seq<char>>) -> Result<OpView, NumberFault> {
    match (field(w, 1), field(w, 4), field(w, 5), field(w, 7), field(w, 8)) {
        (Err(e), _, _, _, _) => Err(e),
        (_, Err(e), _, _, _) => Err(e),
        (_, _, Err(e), _, _) => Err(e),
        (_, _, _, Err(e), _) => Err(e),
        (_, _, _, _, Err(e)) => Err(e),
        (Ok(calls), Ok(sent), Ok(recv), Ok(rtt), Ok(exe)) => Ok(
            OpView {
                op: w[0].drop_last(),
                calls: calls as u64,
                bytes_sent: sent as u64,
                bytes_recv: recv as u64,
                rtt_ms_total: binary64::whole(rtt),
                exe_ms_total: binary64::whole(exe),
            },
        ),
    }
}

/// Whether the words are those of the first line of a mount.
pub open spec fn is_header(w: Seq<Seq<char>>) -> bool {
    w.len() >= 8 && w[0] == "device"@ && w[2] == "mounted"@ && w[3] == "on"@ && w[5] == "with"@ && w[6]
        == "fstype"@
}

/// Whether the words start a line of counters.
pub open spec fn is_op(w: Seq<Seq<char>>) -> bool {
    w.len() >= 2 && w[0].len() > 1 && w[0].last() == ':'
}

/// What has been read: the mounts that are complete, the one that is being read, and whether its
/// lines of counters have begun.
pub struct Progress {
    pub done: Seq<Block>,
    pub current: Option<Block>,
    pub in_ops: bool,
}

/// The mounts, with the one that is being read.
pub open spec fn all_blocks(p: Progress) -> Seq<Block> {
    match p.current {
        Some(b) => p.done.push(b),
        None => p.done,
    }
}

/// What has been read after one more line.
pub open spec fn advanced(p: Progress, line: Seq<char>) -> Result<Progress, (Seq<char>, NumberFault)> {
    let w = procfs::words(line);
    if is_header(w) {
        Ok(
            Progress {
                done: all_blocks(p),
                current: if procfs::is_nfs(w[7]) {
                    Some(
                        Block {
                            device: w[1],
                            mountpoint: w[4],
                            fstype: w[7],
                            options: Seq::empty(),
                            ops: Seq::empty(),
                            raw: line,
                        },
                    )
                } else {
                    None
                },
                in_ops: false,
            },
        )
    } else {
        match p.current {
            None => Ok(p),
            Some(b) => {
                let b = Block { raw: b.raw + seq!['\n'] + line, ..b };
                if w.len() >= 2 && w[0] == "opts:"@ {
                    Ok(Progress { current: Some(Block { options: procfs::options_in(w[1]), ..b }), ..p })
                } else if w.len() >= 1 && w[0] == "per-op"@ {
                    Ok(Progress { current: Some(b), in_ops: true, ..p })
                } else if p.in_ops && is_op(w) {
                    match op_fields(w) {
                        Ok(op) => Ok(
                            Progress {
                                current: Some(
                                    Block {
                                        ops: procfs::renamed(b.ops, w[0].drop_last(), op),
                                        ..b
                                    },
                                ),
                                ..p
                            },
                        ),
                        Err(e) => Err((w[0].drop_last(), e)),
                    }
                } else {
                    Ok(Progress { current: Some(b), ..p })
                }
            },
        }
    }
}

/// What has been read after some lines; where a counter is no number, the kind of call and what
/// is wrong.
pub open spec fn progress(lines: Seq<Seq<char>>) -> Result<Progress, (Seq<char>, NumberFault)>
    decreases lines.len(),
{
    if lines.len() == 0 {
        Ok(Progress { done: Seq::empty(), current: None, in_ops: false })
    } else {
        match progress(lines.drop_last()) {
            Ok(p) => advanced(p, lines.last()),
            Err(e) => Err(e),
        }
    }
}

/// Whether the counters are those of a block, with no name twice: its options give the version, the transport and
/// the number of connections.
pub open spec fn is_mount(m: MountCounters, b: Block) -> bool {
    &&& m.device@ == b.device
    &&& m.mountpoint@ == b.mountpoint
    &&& m.fstype@ == b.fstype
    &&& procfs::options_view(m.options.entries@) == b.options
    &&& procfs::named(m.ops.entries@, |op: OpCounters| op_view(op)) == b.ops
    &&& m.raw_block@ == b.raw
    &&& is_option(m.vers, b.options, "vers"@)
    &&& is_option(m.proto, b.options, "proto"@)
    &&& m.nconnect == match procfs::named_value(b.options, "nconnect"@) {
        Some(v) => match ports::number_value(v, u32::MAX as nat) {
            Ok(n) => Some(n as u32),
            Err(_) => None,
        },
        None => None,
    }
    &&& m.options.wf()
    &&& m.ops.wf()
    &&& m.addr is None
    &&& m.clientaddr is None
    &&& m.st_dev is None
}

/// Whether a text is the value of an option.
pub open spec fn is_option(v: Option<String>, options: Seq<(Seq<char>, Seq<char>)>, name: Seq<char>) -> bool {
    match procfs::named_value(options, name) {
        Some(x) => v matches Some(s) && s@ == x,
        None => v is None,
    }
}

/// The mounts, one for one.
pub open spec fn are_mounts(v: Seq<MountCounters>, blocks: Seq<Block>) -> bool {
    v.len() == blocks.len() && forall|i: int|
        0 <= i < v.len() ==> is_mount(#[trigger] v[i], blocks[i])
}

/// A counter that is no number.
#[derive(Debug)]
pub struct StatsError {
    pub op: String,
    pub fault: NumberFault,
}

impl StatsError {
    /// What is said of the error.
    pub open spec fn text(self) -> Seq<char> {
        "invalid counter of "@ + self.op@
    }

    /// What is said of the error.
    pub fn message(&self) -> (r: String)
        ensures
            r@ == self.text(),
    {
        "invalid counter of ".to_string().concat(self.op.as_str())
    }
}

/// Words as characters.
spec fn same_words(v: Seq<Vec<char>>, w: Seq<Seq<char>>) -> bool {
    v.len() == w.len() && forall|i: int| 0 <= i < v.len() ==> (#[trigger] v[i])@ == w[i]
}

/// The number in a field; zero where the line ends before it.
fn read_field(w: &Vec<Vec<char>>, i: usize) -> (r: Result<u64, NumberFault>)
    ensures
        forall|ws: Seq<Seq<char>>| #[trigger]
            same_words(w@, ws) ==> match r {
                Ok(n) => field(ws, i as int) == Ok::<nat, NumberFault>(n as nat),
                Err(e) => field(ws, i as int) == Err::<nat, NumberFault>(e),
            },
{
    if i < w.len() {
        parse_number(&w[i], u64::MAX)
    } else {
        Ok(0)
    }
}

/// The counters in the words of a line.
fn read_op(w: &Vec<Vec<char>>, name: &String, Ghost(ws): Ghost<Seq<Seq<char>>>) -> (r: Result<
    OpCounters,
    NumberFault,
>)
    requires
        same_words(w@, ws),
        name@ == ws[0].drop_last(),
    ensures
        match r {
            Ok(op) => op_fields(ws) == Ok::<OpView, NumberFault>(op_view(op)),
            Err(e) => op_fields(ws) == Err::<OpView, NumberFault>(e),
        },
{
    let calls: u64 = match read_field(w, 1) {
        Ok(n) => n,
        Err(e) => {
            return Err(e);
        },
    };
    let bytes_sent: u64 = match read_field(w, 4) {
        Ok(n) => n,
        Err(e) => {
            return Err(e);
        },
    };
    let bytes_recv: u64 = match read_field(w, 5) {
        Ok(n) => n,
        Err(e) => {
            return Err(e);
        },
    };
    let rtt: u64 = match read_field(w, 7) {
        Ok(n) => n,
        Err(e) => {
            return Err(e);
        },
    };
    let exe: u64 = match read_field(w, 8) {
        Ok(n) => n,
        Err(e) => {
            return Err(e);
        },
    };
    Ok(
        OpCounters {
            op: name.clone(),
            calls,
            bytes_sent,
            bytes_recv,
            rtt_ms_total: Binary64::from_u64(rtt),
            exe_ms_total: Binary64::from_u64(exe),
        },
    )
}

/// The value of an option.
fn option_value(options: &Table<String, String>, name: &str) -> (r: Option<String>)
    ensures
        is_option(r, procfs::options_view(options.entries@), name@),
{
    let key: String = name.to_string();
    proof {
        procfs::lemma_named_lookup(options.entries@, key, |v: String| v@);
    }
    match options.get(&key) {
        Some(v) => Some(v.clone()),
        None => None,
    }
}

/// The number of connections that the options ask for.
fn option_count(options: &Table<String, String>) -> (r: Option<u32>)
    ensures
        r == match procfs::named_value(procfs::options_view(options.entries@), "nconnect"@) {
            Some(v) => match ports::number_value(v, u32::MAX as nat) {
                Ok(n) => Some(n as u32),
                Err(_) => None,
            },
            None => None,
        },
{
    match option_value(options, "nconnect") {
        Some(v) => match parse_number(&chars_of(v.as_str()), 0xffff_ffff) {
            Ok(n) => Some(n as u32),
            Err(_) => None,
        },
        None => None,
    }
}

/// A name without its last character.
fn without_last(word: &Vec<char>) -> (r: String)
    requires
        word@.len() > 0,
    ensures
        r@ == word@.drop_last(),
{
    let mut name: Vec<char> = Vec::new();
    let mut i: usize = 0;
    while i < word.len() - 1
        invariant
            0 < word@.len(),
            i <= word@.len() - 1,
            name@ == word@.take(i as int),
        decreases word@.len() - i,
    {
        name.push(word[i]);
        i = i + 1;
        assert(name@ =~= word@.take(i as int));
    }
    assert(name@ =~= word@.drop_last());
    text_of(name.as_slice())
}

/// Whether the words are those of the first line of a mount.
fn starts_mount(w: &Vec<Vec<char>>, Ghost(ws): Ghost<Seq<Seq<char>>>) -> (r: bool)
    requires
        same_words(w@, ws),
    ensures
        r == is_header(ws),
{
    w.len() >= 8 && is_word(&w[0], "device") && is_word(&w[2], "mounted") && is_word(&w[3], "on")
        && is_word(&w[5], "with") && is_word(&w[6], "fstype")
}

/// A mount without options and counters.
fn new_mount(w: &Vec<Vec<char>>, line: &Vec<char>) -> (r: MountCounters)
    requires
        w@.len() >= 8,
    ensures
        is_mount(
            r,
            Block {
                device: w@[1]@,
                mountpoint: w@[4]@,
                fstype: w@[7]@,
                options: Seq::empty(),
                ops: Seq::empty(),
                raw: line@,
            },
        ),
{
    let options: Table<String, String> = Table::new();
    let ops: Table<String, OpCounters> = Table::new();
    assert(procfs::options_view(options.entries@) =~= Seq::empty());
    assert(procfs::named(ops.entries@, |op: OpCounters| op_view(op)) =~= Seq::empty());
    let vers: Option<String> = option_value(&options, "vers");
    let proto: Option<String> = option_value(&options, "proto");
    let nconnect: Option<u32> = option_count(&options);
    MountCounters {
        device: text_of(w[1].as_slice()),
        mountpoint: text_of(w[4].as_slice()),
        fstype: text_of(w[7].as_slice()),
        vers,
        proto,
        nconnect,
        addr: None,
        clientaddr: None,
        st_dev: None,
        options,
        ops,
        raw_block: text_of(line.as_slice()),
    }
}

/// What has been read: the mounts that are complete, the one that is being read, and whether its
/// lines of counters have begun.
struct Reader {
    done: Vec<MountCounters>,
    current: Option<MountCounters>,
    in_ops: bool,
}

/// Whether this is what has been read.
spec fn is_progress(r: Reader, p: Progress) -> bool {
    &&& are_mounts(r.done@, p.done)
    &&& match (r.current, p.current) {
        (Some(m), Some(b)) => is_mount(m, b),
        (None, None) => true,
        _ => false,
    }
    &&& r.in_ops == p.in_ops
}

impl Reader {
    /// Completes the mount that is being read.
    fn complete(&mut self, Ghost(p): Ghost<Progress>)
        requires
            is_progress(*old(self), p),
        ensures
            are_mounts(final(self).done@, all_blocks(p)),
            final(self).current is None,
    {
        match self.current.take() {
            Some(m) => {
                self.done.push(m);
            },
            None => {},
        }
    }

    /// Takes in one more line.
    fn advance(&mut self, line: &Vec<char>, Ghost(p): Ghost<Progress>) -> (r: Result<(), StatsError>)
        requires
            is_progress(*old(self), p),
        ensures
            match r {
                Ok(_) => advanced(p, line@) matches Ok(q) && is_progress(*final(self), q),
                Err(e) => advanced(p, line@) == Err::<Progress, (Seq<char>, NumberFault)>(
                    (e.op@, e.fault),
                ),
            },
    {
        let w: Vec<Vec<char>> = words_of(line);
        let ghost ws = procfs::words(line@);
        assert(same_words(w@, ws));
        if starts_mount(&w, Ghost(ws)) {
            self.complete(Ghost(p));
            self.in_ops = false;
            if is_word(&w[7], "nfs") || is_word(&w[7], "nfs4") {
                self.current = Some(new_mount(&w, line));
            }
            return Ok(());
        }
        let mut m: MountCounters = match self.current.take() {
            Some(m) => m,
            None => {
                return Ok(());
            },
        };
        let ghost b0 = p.current->0;
        let ghost b = Block { raw: b0.raw + seq!['\n'] + line@, ..b0 };
        let ghost raw0 = m.raw_block@;
        m.raw_block.push('\n');
        m.raw_block.append(text_of(line.as_slice()).as_str());
        assert(m.raw_block@ =~= b.raw);
        assert(is_mount(m, b));
        if w.len() >= 2 && is_word(&w[0], "opts:") {
            let options: Table<String, String> = parse_options(&w[1]);
            m.vers = option_value(&options, "vers");
            m.proto = option_value(&options, "proto");
            m.nconnect = option_count(&options);
            m.options = options;
        } else if w.len() >= 1 && is_word(&w[0], "per-op") {
            self.in_ops = true;
        } else if self.in_ops && w.len() >= 2 && w[0].len() > 1 && w[0][w[0].len() - 1] == ':' {
            let name: String = without_last(&w[0]);
            match read_op(&w, &name, Ghost(ws)) {
                Ok(op) => {
                    proof {
                        procfs::lemma_named_stored(
                            m.ops.entries@,
                            name,
                            op,
                            |op: OpCounters| op_view(op),
                        );
                    }
                    m.ops.insert(name, op);
                },
                Err(fault) => {
                    return Err(StatsError { op: name, fault });
                },
            }
        }
        self.current = Some(m);
        Ok(())
    }
}

proof fn lemma_error_stays(lines: Seq<Seq<char>>, i: int)
    requires
        0 <= i <= lines.len(),
        progress(lines.take(i)) is Err,
    ensures
        progress(lines) == progress(lines.take(i)),
    decreases lines.len() - i,
{
    if i < lines.len() {
        assert(lines.take(i + 1).drop_last() =~= lines.take(i));
        lemma_error_stays(lines, i + 1);
    } else {
        assert(lines.take(i) =~= lines);
    }
}

/// The network file systems in the statistics of the mounts.
pub fn parse_mountstats(s: &str) -> (r: Result<Vec<MountCounters>, StatsError>)
    ensures
        match r {
            Ok(v) => progress(ports::pieces(s@, '\n')) matches Ok(p) && are_mounts(v@, all_blocks(p)),
            Err(e) => progress(ports::pieces(s@, '\n')) == Err::<Progress, (Seq<char>, NumberFault)>(
                (e.op@, e.fault),
            ),
        },
{
    let lines: Vec<Vec<char>> = split(&chars_of(s), '\n');
    let ghost all = ports::pieces(s@, '\n');
    let mut reader: Reader = Reader { done: Vec::new(), current: None, in_ops: false };
    let mut i: usize = 0;
    while i < lines.len()
        invariant
            all == ports::pieces(s@, '\n'),
            lines@.len() == all.len(),
            forall|j: int| 0 <= j < lines@.len() ==> (#[trigger] lines@[j])@ == all[j],
            i <= lines@.len(),
            progress(all.take(i as int)) matches Ok(p) && is_progress(reader, p),
        decreases lines@.len() - i,
    {
        let ghost p = progress(all.take(i as int))->Ok_0;
        assert(all.take(i + 1).drop_last() =~= all.take(i as int));
        assert(lines@[i as int]@ == all[i as int]);
        match reader.advance(&lines[i], Ghost(p)) {
            Ok(_) => {},
            Err(e) => {
                proof {
                    lemma_error_stays(all, i + 1);
                }
                return Err(e);
            },
        }
        i = i + 1;
    }
    assert(all.take(i as int) =~= all);
    let ghost p = progress(all)->Ok_0;
    reader.complete(Ghost(p));
    Ok(reader.done)
}

} // verus!
