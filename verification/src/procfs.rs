//! The kernel's tables of mounts, devices, calls and connections.

use crate::ports;
use crate::ports::{parse_number, split, trim};
use crate::sampler::{MountOptions, SocketObs};
use crate::search;
use crate::table;
use crate::table::{Key, Table};
use crate::text;
use crate::text::{chars_of, text_of};
use crate::types::{IpAddr, RpcClient};
use vstd::prelude::*;
use vstd::string::*;

verus! {

/// The words of a text: its longest runs without white space.
pub open spec fn words(s: Seq<char>) -> Seq<Seq<char>>
    decreases s.len(),
{
    if s.len() == 0 {
        Seq::empty()
    } else {
        let front = s.drop_last();
        let before = words(front);
        if ports::is_white(s.last()) {
            before
        } else if front.len() > 0 && !ports::is_white(front.last()) {
            before.drop_last().push(before.last().push(s.last()))
        } else {
            before.push(seq![s.last()])
        }
    }
}

/// The words of a text.
pub(crate) fn words_of(s: &Vec<char>) -> (r: Vec<Vec<char>>)
    ensures
        r@.len() == words(s@).len(),
        forall|i: int| 0 <= i < r@.len() ==> (#[trigger] r@[i])@ == words(s@)[i],
{
    let mut done: Vec<Vec<char>> = Vec::new();
    let mut word: Vec<char> = Vec::new();
    let mut i: usize = 0;
    while i < s.len()
        invariant
            i <= s@.len(),
            (word@.len() > 0) == (i > 0 && !ports::is_white(s@[i - 1])),
            words(s@.take(i as int)).len() == done@.len() + (if word@.len() > 0 {
                1nat
            } else {
                0
            }),
            word@.len() > 0 ==> words(s@.take(i as int)).last() == word@,
            forall|j: int|
                0 <= j < done@.len() ==> (#[trigger] done@[j])@ == words(s@.take(i as int))[j],
        decreases s@.len() - i,
    {
        let c: char = s[i];
        let ghost before = words(s@.take(i as int));
        assert(s@.take(i + 1).drop_last() =~= s@.take(i as int));
        if i > 0 {
            assert(s@.take(i as int).last() == s@[i - 1]);
        }
        if ports::white(c) {
            if word.len() > 0 {
                assert(before.last() == before[done@.len() as int]);
                done.push(word);
                word = Vec::new();
            }
        } else {
            word.push(c);
        }
        i = i + 1;
    }
    assert(s@.take(i as int) =~= s@);
    if word.len() > 0 {
        done.push(word);
    }
    done
}

/// The number that a hexadecimal digit denotes.
pub open spec fn hex_digit(c: char) -> Option<nat> {
    if '0' <= c <= '9' {
        Some((c as nat - '0' as nat) as nat)
    } else if 'A' <= c <= 'F' {
        Some((c as nat - 'A' as nat + 10) as nat)
    } else if 'a' <= c <= 'f' {
        Some((c as nat - 'a' as nat + 10) as nat)
    } else {
        None
    }
}

/// The number that hexadecimal digits denote.
pub open spec fn hex_value(s: Seq<char>) -> Option<nat>
    decreases s.len(),
{
    if s.len() == 0 {
        Some(0)
    } else {
        match (hex_value(s.drop_last()), hex_digit(s.last())) {
            (Some(v), Some(d)) => Some(v * 16 + d),
            _ => None,
        }
    }
}

/// The number that a hexadecimal digit denotes.
fn read_hex_digit(c: char) -> (r: Option<u32>)
    ensures
        match r {
            Some(d) => hex_digit(c) == Some(d as nat) && d < 16,
            None => hex_digit(c) is None,
        },
{
    if '0' <= c && c <= '9' {
        Some(c as u32 - '0' as u32)
    } else if 'A' <= c && c <= 'F' {
        Some(c as u32 - 'A' as u32 + 10)
    } else if 'a' <= c && c <= 'f' {
        Some(c as u32 - 'a' as u32 + 10)
    } else {
        None
    }
}

proof fn lemma_hex_fails(s: Seq<char>, i: int)
    requires
        0 <= i <= s.len(),
        hex_value(s.take(i)) is None,
    ensures
        hex_value(s) is None,
    decreases s.len() - i,
{
    if i < s.len() {
        assert(s.take(i + 1).drop_last() =~= s.take(i));
        lemma_hex_fails(s, i + 1);
    } else {
        assert(s.take(i) =~= s);
    }
}

/// The number that up to eight hexadecimal digits denote.
fn read_hex(s: &Vec<char>, from: usize, to: usize) -> (r: Option<u32>)
    requires
        from <= to <= s@.len(),
        to - from <= 8,
    ensures
        match r {
            Some(v) => hex_value(s@.subrange(from as int, to as int)) == Some(v as nat),
            None => hex_value(s@.subrange(from as int, to as int)) is None,
        },
{
    let ghost digits = s@.subrange(from as int, to as int);
    let mut v: u64 = 0;
    let mut bound: u64 = 1;
    let mut i: usize = from;
    while i < to
        invariant
            digits == s@.subrange(from as int, to as int),
            from <= i <= to <= s@.len(),
            to - from <= 8,
            hex_value(digits.take(i - from)) == Some(v as nat),
            v < bound,
            i - from == 0 ==> bound == 1,
            i - from == 1 ==> bound == 0x10,
            i - from == 2 ==> bound == 0x100,
            i - from == 3 ==> bound == 0x1000,
            i - from == 4 ==> bound == 0x1_0000,
            i - from == 5 ==> bound == 0x10_0000,
            i - from == 6 ==> bound == 0x100_0000,
            i - from == 7 ==> bound == 0x1000_0000,
            i - from == 8 ==> bound == 0x1_0000_0000,
        decreases to - i,
    {
        proof {
            assert(digits.take(i + 1 - from).drop_last() =~= digits.take(i - from));
            assert(digits.take(i + 1 - from).last() == s@[i as int]);
        }
        match read_hex_digit(s[i]) {
            Some(d) => {
                v = v * 16 + d as u64;
                bound = bound * 16;
            },
            None => {
                proof {
                    lemma_hex_fails(digits, i + 1 - from);
                }
                return None;
            },
        }
        i = i + 1;
    }
    assert(digits.take(to - from) =~= digits);
    Some(v as u32)
}

/// A number of four bytes with the bytes in the other order.
pub open spec fn swapped(n: nat) -> nat {
    (n % 0x100) * 0x100_0000 + (n / 0x100 % 0x100) * 0x1_0000 + (n / 0x1_0000 % 0x100) * 0x100 + n
        / 0x100_0000
}

/// The address that eight or thirty-two hexadecimal digits denote: groups of eight, each with
/// its lowest byte first.
pub open spec fn address(s: Seq<char>, v6: bool) -> Option<IpAddr> {
    if v6 {
        if s.len() != 32 {
            None
        } else {
            match (
                hex_value(s.subrange(0, 8)),
                hex_value(s.subrange(8, 16)),
                hex_value(s.subrange(16, 24)),
                hex_value(s.subrange(24, 32)),
            ) {
                (Some(a), Some(b), Some(c), Some(d)) => Some(
                    IpAddr::V6(
                        (swapped(a) * 0x1_0000_0000_0000_0000_0000_0000 + swapped(b)
                            * 0x1_0000_0000_0000_0000 + swapped(c) * 0x1_0000_0000 + swapped(
                            d,
                        )) as u128,
                    ),
                ),
                _ => None,
            }
        }
    } else if s.len() != 8 {
        None
    } else {
        match hex_value(s) {
            Some(a) => Some(IpAddr::V4(swapped(a) as u32)),
            None => None,
        }
    }
}

/// A number of four bytes with the bytes in the other order.
fn swap(n: u32) -> (r: u32)
    ensures
        r == swapped(n as nat),
{
    (n % 0x100) * 0x100_0000 + (n / 0x100 % 0x100) * 0x1_0000 + (n / 0x1_0000 % 0x100) * 0x100 + n
        / 0x100_0000
}

/// The address that hexadecimal digits denote.
fn read_address(s: &Vec<char>, v6: bool) -> (r: Option<IpAddr>)
    ensures
        r == address(s@, v6),
{
    if v6 {
        if s.len() != 32 {
            return None;
        }
        let a: Option<u32> = read_hex(s, 0, 8);
        let b: Option<u32> = read_hex(s, 8, 16);
        let c: Option<u32> = read_hex(s, 16, 24);
        let d: Option<u32> = read_hex(s, 24, 32);
        match (a, b, c, d) {
            (Some(a), Some(b), Some(c), Some(d)) => {
                let a: u128 = swap(a) as u128;
                let b: u128 = swap(b) as u128;
                let c: u128 = swap(c) as u128;
                let d: u128 = swap(d) as u128;
                Some(
                    IpAddr::V6(
                        a * 0x1_0000_0000_0000_0000_0000_0000 + b * 0x1_0000_0000_0000_0000 + c
                            * 0x1_0000_0000 + d,
                    ),
                )
            },
            _ => None,
        }
    } else {
        if s.len() != 8 {
            return None;
        }
        assert(s@.subrange(0, 8) =~= s@);
        match read_hex(s, 0, 8) {
            Some(a) => Some(IpAddr::V4(swap(a))),
            None => None,
        }
    }
}

/// The remote end of an established connection to one of the ports, in a line of the table of
/// connections: the third word is the remote address and port, the fourth the state.
pub open spec fn remote(line: Seq<char>, v6: bool, ports: Seq<u16>) -> Option<IpAddr> {
    let w = words(line);
    if w.len() >= 4 && w[3] == seq!['0', '1'] {
        let parts = ports::pieces(w[2], ':');
        if parts.len() == 2 && parts[1].len() == 4 {
            match hex_value(parts[1]) {
                Some(port) if ports.contains(port as u16) => address(parts[0], v6),
                _ => None,
            }
        } else {
            None
        }
    } else {
        None
    }
}

/// Whether a word is `01`, the state of an established connection.
fn is_established(word: &Vec<char>) -> (r: bool)
    ensures
        r == (word@ == seq!['0', '1']),
{
    if word.len() == 2 && word[0] == '0' && word[1] == '1' {
        assert(word@ =~= seq!['0', '1']);
        true
    } else {
        false
    }
}

/// Whether a port is in a list.
fn contains_port(ports: &[u16], port: u16) -> (r: bool)
    ensures
        r == ports@.contains(port),
{
    let mut i: usize = 0;
    while i < ports.len()
        invariant
            i <= ports@.len(),
            forall|j: int| 0 <= j < i ==> ports@[j] != port,
        decreases ports@.len() - i,
    {
        if ports[i] == port {
            assert(ports@[i as int] == port);
            return true;
        }
        i = i + 1;
    }
    false
}

/// The remote end of an established connection to one of the ports.
fn find_remote(line: &Vec<char>, v6: bool, ports: &[u16]) -> (r: Option<IpAddr>)
    ensures
        r == remote(line@, v6, ports@),
{
    let w: Vec<Vec<char>> = words_of(line);
    if w.len() < 4 || !is_established(&w[3]) {
        return None;
    }
    let parts: Vec<Vec<char>> = split(&w[2], ':');
    if parts.len() != 2 || parts[1].len() != 4 {
        return None;
    }
    assert(parts@[1]@.subrange(0, 4) =~= parts@[1]@);
    match read_hex(&parts[1], 0, 4) {
        Some(port) => {
            assert(port < 0x1_0000) by {
                lemma_hex_bound(parts@[1]@);
            }
            if contains_port(ports, port as u16) {
                read_address(&parts[0], v6)
            } else {
                None
            }
        },
        None => None,
    }
}

/// Four hexadecimal digits denote a number of two bytes.
proof fn lemma_hex_bound(s: Seq<char>)
    requires
        s.len() == 4,
    ensures
        hex_value(s) matches Some(v) ==> v < 0x1_0000,
{
    reveal_with_fuel(hex_value, 5);
}

/// The connections by remote address, with those of some lines, taken in order.
pub open spec fn tallied(
    entries: Seq<(IpAddr, u64)>,
    lines: Seq<Seq<char>>,
    v6: bool,
    ports: Seq<u16>,
) -> Seq<(IpAddr, u64)>
    decreases lines.len(),
{
    if lines.len() == 0 {
        entries
    } else {
        let before = tallied(entries, lines.drop_last(), v6, ports);
        match remote(lines.last(), v6, ports) {
            Some(ip) => table::stored(before, ip, one_more(table::lookup(before, ip))),
            None => before,
        }
    }
}

/// A count with one more.
pub open spec fn one_more(count: Option<u64>) -> u64 {
    match count {
        Some(n) => if n < u64::MAX {
            (n + 1) as u64
        } else {
            n
        },
        None => 1,
    }
}

/// The lines that show an established connection to one of the ports, without the white space
/// at their ends.
pub open spec fn matching(lines: Seq<Seq<char>>, v6: bool, ports: Seq<u16>) -> Seq<Seq<char>>
    decreases lines.len(),
{
    if lines.len() == 0 {
        Seq::empty()
    } else {
        let before = matching(lines.drop_last(), v6, ports);
        if remote(lines.last(), v6, ports) is Some {
            before.push(ports::trimmed(lines.last()))
        } else {
            before
        }
    }
}

/// Adds the established connections to the ports that the table of connections shows.
pub fn parse_tcp_lines(s: &str, v6: bool, ports: &[u16], out: &mut SocketObs)
    ensures
        final(out).by_remote_ip.entries@ == tallied(
            old(out).by_remote_ip.entries@,
            ports::pieces(s@, '\n'),
            v6,
            ports@,
        ),
        text::texts(final(out).raw_matches@) == text::texts(old(out).raw_matches@) + matching(
            ports::pieces(s@, '\n'),
            v6,
            ports@,
        ),
        old(out).by_remote_ip.wf() ==> final(out).by_remote_ip.wf(),
{
    let lines: Vec<Vec<char>> = split(&chars_of(s), '\n');
    let ghost all = ports::pieces(s@, '\n');
    let ghost conns = out.by_remote_ip.entries@;
    let ghost raw = text::texts(out.raw_matches@);
    let mut i: usize = 0;
    assert(raw + matching(all.take(0), v6, ports@) =~= raw);
    while i < lines.len()
        invariant
            all == ports::pieces(s@, '\n'),
            lines@.len() == all.len(),
            forall|j: int| 0 <= j < lines@.len() ==> (#[trigger] lines@[j])@ == all[j],
            i <= lines@.len(),
            out.by_remote_ip.entries@ == tallied(conns, all.take(i as int), v6, ports@),
            old(out).by_remote_ip.wf() ==> out.by_remote_ip.wf(),
            text::texts(out.raw_matches@) == raw + matching(all.take(i as int), v6, ports@),
        decreases lines@.len() - i,
    {
        assert(all.take(i + 1).drop_last() =~= all.take(i as int));
        assert(lines@[i as int]@ == all[i as int]);
        match find_remote(&lines[i], v6, ports) {
            Some(ip) => {
                let n: u64 = match out.by_remote_ip.get(&ip) {
                    Some(n) => n.saturating_add(1),
                    None => 1,
                };
                out.by_remote_ip.insert(ip, n);
                let line: Vec<char> = trim(&lines[i]);
                let ghost before = out.raw_matches@;
                out.raw_matches.push(text_of(line.as_slice()));
                assert(text::texts(out.raw_matches@) =~= text::texts(before).push(ports::trimmed(all[i as int])));
                assert(raw + matching(all.take(i + 1), v6, ports@) =~= (raw + matching(
                    all.take(i as int),
                    v6,
                    ports@,
                )).push(ports::trimmed(all[i as int])));
            },
            None => {},
        }
        i = i + 1;
    }
    assert(all.take(i as int) =~= all);
}

/// Named values with the names as characters and the values seen through `f`.
pub open spec fn named<T, V>(entries: Seq<(String, T)>, f: spec_fn(T) -> V) -> Seq<(Seq<char>, V)> {
    entries.map_values(|e: (String, T)| (e.0@, f(e.1)))
}

/// The value of a name.
pub open spec fn named_value<V>(s: Seq<(Seq<char>, V)>, name: Seq<char>) -> Option<V> {
    match search::first(s, |e: (Seq<char>, V)| e.0 == name) {
        Some(i) => Some(s[i].1),
        None => None,
    }
}

/// Named values after one has been stored: in place of the value of the same name, or last.
pub open spec fn renamed<V>(s: Seq<(Seq<char>, V)>, name: Seq<char>, value: V) -> Seq<(Seq<char>, V)> {
    match search::first(s, |e: (Seq<char>, V)| e.0 == name) {
        Some(i) => s.update(i, (s[i].0, value)),
        None => s.push((name, value)),
    }
}

pub(crate) proof fn lemma_named_stored<T, V>(entries: Seq<(String, T)>, key: String, value: T, f: spec_fn(T) -> V)
    ensures
        named(table::stored(entries, key, value), f) == renamed(named(entries, f), key@, f(value)),
{
    let p = |e: (String, T)| e.0.id() == key@;
    let q = |e: (Seq<char>, V)| e.0 == key@;
    search::lemma_first(entries, p);
    search::lemma_first_same(entries, p, named(entries, f), q);
    assert(named(table::stored(entries, key, value), f) =~= renamed(
        named(entries, f),
        key@,
        f(value),
    ));
}

pub(crate) proof fn lemma_named_lookup<T, V>(entries: Seq<(String, T)>, key: String, f: spec_fn(T) -> V)
    ensures
        match table::lookup(entries, key@) {
            Some(v) => named_value(named(entries, f), key@) == Some(f(v)),
            None => named_value(named(entries, f), key@) is None,
        },
{
    let p = |e: (String, T)| e.0.id() == key@;
    let q = |e: (Seq<char>, V)| e.0 == key@;
    search::lemma_first(entries, p);
    search::lemma_first_same(entries, p, named(entries, f), q);
}

/// The name and the value of an option: what is before and behind the first equals sign; all of
/// it and nothing where there is none.
pub open spec fn option_parts(s: Seq<char>) -> (Seq<char>, Seq<char>) {
    match search::first(s, |c: char| c == '=') {
        Some(i) => (s.take(i), s.skip(i + 1)),
        None => (s, Seq::empty()),
    }
}

/// Options by name, from a list with commas between them; of two with one name the later counts.
pub open spec fn options_from(list: Seq<Seq<char>>) -> Seq<(Seq<char>, Seq<char>)>
    decreases list.len(),
{
    if list.len() == 0 {
        Seq::empty()
    } else {
        let (name, value) = option_parts(list.last());
        renamed(options_from(list.drop_last()), name, value)
    }
}

/// Options by name, from a list with commas between them.
pub open spec fn options_in(s: Seq<char>) -> Seq<(Seq<char>, Seq<char>)> {
    options_from(ports::pieces(s, ','))
}

/// Options as characters.
pub open spec fn options_view(entries: Seq<(String, String)>) -> Seq<(Seq<char>, Seq<char>)> {
    named(entries, |v: String| v@)
}

/// The name and the value of an option.
fn split_option(s: &Vec<char>) -> (r: (String, String))
    ensures
        (r.0@, r.1@) == option_parts(s@),
{
    let ghost p = |c: char| c == '=';
    let mut name: Vec<char> = Vec::new();
    let mut i: usize = 0;
    while i < s.len() && s[i] != '='
        invariant
            p == (|c: char| c == '='),
            i <= s@.len(),
            name@ == s@.take(i as int),
            forall|j: int| 0 <= j < i ==> !p(#[trigger] s@[j]),
        decreases s@.len() - i,
    {
        name.push(s[i]);
        i = i + 1;
        assert(name@ =~= s@.take(i as int));
    }
    if i == s.len() {
        proof {
            search::lemma_first_none(s@, p);
            assert(s@.take(i as int) =~= s@);
        }
        return (text_of(name.as_slice()), String::new());
    }
    proof {
        search::lemma_first_is(s@, p, i as int);
    }
    let mut value: Vec<char> = Vec::new();
    let mut j: usize = i + 1;
    while j < s.len()
        invariant
            i < j <= s@.len(),
            value@ == s@.subrange(i + 1, j as int),
        decreases s@.len() - j,
    {
        value.push(s[j]);
        j = j + 1;
        assert(value@ =~= s@.subrange(i + 1, j as int));
    }
    assert(value@ =~= s@.skip(i + 1));
    (text_of(name.as_slice()), text_of(value.as_slice()))
}

/// Options by name, from a list with commas between them.
pub fn parse_options(s: &Vec<char>) -> (r: Table<String, String>)
    ensures
        options_view(r.entries@) == options_in(s@),
        r.wf(),
{
    let parts: Vec<Vec<char>> = split(s, ',');
    let ghost all = ports::pieces(s@, ',');
    let ghost f = |v: String| v@;
    let mut r: Table<String, String> = Table::new();
    let mut i: usize = 0;
    assert(options_view(r.entries@) =~= options_from(all.take(0)));
    while i < parts.len()
        invariant
            f == (|v: String| v@),
            parts@.len() == all.len(),
            forall|j: int| 0 <= j < parts@.len() ==> (#[trigger] parts@[j])@ == all[j],
            i <= parts@.len(),
            options_view(r.entries@) == options_from(all.take(i as int)),
            r.wf(),
        decreases parts@.len() - i,
    {
        assert(all.take(i + 1).drop_last() =~= all.take(i as int));
        assert(parts@[i as int]@ == all[i as int]);
        let (name, value) = split_option(&parts[i]);
        proof {
            lemma_named_stored(r.entries@, name, value, f);
        }
        r.insert(name, value);
        i = i + 1;
    }
    assert(all.take(i as int) =~= all);
    r
}

/// Whether a word is the given one.
pub(crate) fn is_word(word: &Vec<char>, text: &str) -> (r: bool)
    ensures
        r == (word@ == text@),
{
    let other: Vec<char> = chars_of(text);
    if word.len() != other.len() {
        return false;
    }
    let mut i: usize = 0;
    while i < word.len()
        invariant
            other@ == text@,
            word@.len() == other@.len(),
            i <= word@.len(),
            forall|j: int| 0 <= j < i ==> word@[j] == other@[j],
        decreases word@.len() - i,
    {
        if word[i] != other[i] {
            return false;
        }
        i = i + 1;
    }
    assert(word@ =~= other@);
    true
}

/// Whether a kind of file system is the network file system.
pub open spec fn is_nfs(fstype: Seq<char>) -> bool {
    fstype == "nfs"@ || fstype == "nfs4"@
}

/// The mount options by mountpoint in the list of mounts: the second word of a line is the
/// mountpoint, the third the kind of file system, the fourth the options.
pub open spec fn mounts_in(lines: Seq<Seq<char>>) -> Seq<(Seq<char>, Seq<(Seq<char>, Seq<char>)>)>
    decreases lines.len(),
{
    if lines.len() == 0 {
        Seq::empty()
    } else {
        let before = mounts_in(lines.drop_last());
        let w = words(lines.last());
        if w.len() >= 4 && is_nfs(w[2]) {
            renamed(before, w[1], options_in(w[3]))
        } else {
            before
        }
    }
}

/// The mount options by mountpoint as characters.
pub open spec fn mounts_view(entries: Seq<(String, Table<String, String>)>) -> Seq<
    (Seq<char>, Seq<(Seq<char>, Seq<char>)>),
> {
    named(entries, |t: Table<String, String>| options_view(t.entries@))
}

/// The mount options of the network file systems in the list of mounts.
pub fn parse_mounts(s: &str) -> (r: MountOptions)
    ensures
        mounts_view(r.entries@) == mounts_in(ports::pieces(s@, '\n')),
        r.wf(),
{
    let lines: Vec<Vec<char>> = split(&chars_of(s), '\n');
    let ghost all = ports::pieces(s@, '\n');
    let ghost f = |t: Table<String, String>| options_view(t.entries@);
    let mut r: MountOptions = Table::new();
    let mut i: usize = 0;
    assert(mounts_view(r.entries@) =~= mounts_in(all.take(0)));
    while i < lines.len()
        invariant
            f == (|t: Table<String, String>| options_view(t.entries@)),
            lines@.len() == all.len(),
            forall|j: int| 0 <= j < lines@.len() ==> (#[trigger] lines@[j])@ == all[j],
            i <= lines@.len(),
            mounts_view(r.entries@) == mounts_in(all.take(i as int)),
            r.wf(),
        decreases lines@.len() - i,
    {
        assert(all.take(i + 1).drop_last() =~= all.take(i as int));
        assert(lines@[i as int]@ == all[i as int]);
        let w: Vec<Vec<char>> = words_of(&lines[i]);
        if w.len() >= 4 && (is_word(&w[2], "nfs") || is_word(&w[2], "nfs4")) {
            let mountpoint: String = text_of(w[1].as_slice());
            let options: Table<String, String> = parse_options(&w[3]);
            proof {
                lemma_named_stored(r.entries@, mountpoint, options, f);
            }
            r.insert(mountpoint, options);
        }
        i = i + 1;
    }
    assert(all.take(i as int) =~= all);
    r
}

/// The number of a device, from its major and minor numbers.
pub open spec fn device_number(s: Seq<char>) -> Option<u32> {
    let parts = ports::pieces(s, ':');
    if parts.len() == 2 {
        match (ports::number_value(parts[0], 0xfff), ports::number_value(parts[1], 0xf_ffff)) {
            (Ok(major), Ok(minor)) => Some((major * 0x10_0000 + minor) as u32),
            _ => None,
        }
    } else {
        None
    }
}

/// The device numbers by mountpoint in the list of mounts with devices: the third word of a line
/// is the device, the fifth the mountpoint.
pub open spec fn devices_in(lines: Seq<Seq<char>>) -> Seq<(Seq<char>, u32)>
    decreases lines.len(),
{
    if lines.len() == 0 {
        Seq::empty()
    } else {
        let before = devices_in(lines.drop_last());
        let w = words(lines.last());
        if w.len() >= 5 {
            match device_number(w[2]) {
                Some(dev) => renamed(before, w[4], dev),
                None => before,
            }
        } else {
            before
        }
    }
}

/// The number of a device.
fn read_device(s: &Vec<char>) -> (r: Option<u32>)
    ensures
        r == device_number(s@),
{
    let parts: Vec<Vec<char>> = split(s, ':');
    if parts.len() != 2 {
        return None;
    }
    match (parse_number(&parts[0], 0xfff), parse_number(&parts[1], 0xf_ffff)) {
        (Ok(major), Ok(minor)) => Some((major * 0x10_0000 + minor) as u32),
        _ => None,
    }
}

/// The device numbers in the list of mounts with devices.
pub fn parse_devices(s: &str) -> (r: Table<String, u32>)
    ensures
        named(r.entries@, |d: u32| d) == devices_in(ports::pieces(s@, '\n')),
        r.wf(),
{
    let lines: Vec<Vec<char>> = split(&chars_of(s), '\n');
    let ghost all = ports::pieces(s@, '\n');
    let ghost f = |d: u32| d;
    let mut r: Table<String, u32> = Table::new();
    let mut i: usize = 0;
    assert(named(r.entries@, f) =~= devices_in(all.take(0)));
    while i < lines.len()
        invariant
            f == (|d: u32| d),
            lines@.len() == all.len(),
            forall|j: int| 0 <= j < lines@.len() ==> (#[trigger] lines@[j])@ == all[j],
            i <= lines@.len(),
            named(r.entries@, f) == devices_in(all.take(i as int)),
            r.wf(),
        decreases lines@.len() - i,
    {
        assert(all.take(i + 1).drop_last() =~= all.take(i as int));
        assert(lines@[i as int]@ == all[i as int]);
        let w: Vec<Vec<char>> = words_of(&lines[i]);
        if w.len() >= 5 {
            match read_device(&w[2]) {
                Some(dev) => {
                    let mountpoint: String = text_of(w[4].as_slice());
                    proof {
                        lemma_named_stored(r.entries@, mountpoint, dev, f);
                    }
                    r.insert(mountpoint, dev);
                },
                None => {},
            }
        }
        i = i + 1;
    }
    assert(all.take(i as int) =~= all);
    r
}

/// The counters of the RPC client in a line: three numbers behind the word `rpc`.
pub open spec fn rpc_counters(line: Seq<char>) -> Option<RpcClient> {
    let w = words(line);
    if w.len() >= 4 && w[0] == "rpc"@ {
        match (
            ports::number_value(w[1], u64::MAX as nat),
            ports::number_value(w[2], u64::MAX as nat),
            ports::number_value(w[3], u64::MAX as nat),
        ) {
            (Ok(a), Ok(b), Ok(c)) => Some(
                RpcClient { calls: a as u64, retrans: b as u64, authrefresh: c as u64 },
            ),
            _ => None,
        }
    } else {
        None
    }
}

/// The counters of the RPC client in a line.
fn read_rpc(line: &Vec<char>) -> (r: Option<RpcClient>)
    ensures
        r == rpc_counters(line@),
{
    let w: Vec<Vec<char>> = words_of(line);
    if w.len() < 4 || !is_word(&w[0], "rpc") {
        return None;
    }
    match (
        parse_number(&w[1], u64::MAX),
        parse_number(&w[2], u64::MAX),
        parse_number(&w[3], u64::MAX),
    ) {
        (Ok(calls), Ok(retrans), Ok(authrefresh)) => Some(RpcClient { calls, retrans, authrefresh }),
        _ => None,
    }
}

/// The counters of the RPC client: those of the first line that has them.
pub fn parse_rpc(s: &str) -> (r: Option<RpcClient>)
    ensures
        r == match search::first(
            ports::pieces(s@, '\n'),
            |line: Seq<char>| rpc_counters(line) is Some,
        ) {
            Some(i) => rpc_counters(ports::pieces(s@, '\n')[i]),
            None => None,
        },
{
    let lines: Vec<Vec<char>> = split(&chars_of(s), '\n');
    let ghost all = ports::pieces(s@, '\n');
    let ghost p = |line: Seq<char>| rpc_counters(line) is Some;
    let mut i: usize = 0;
    while i < lines.len()
        invariant
            all == ports::pieces(s@, '\n'),
            p == (|line: Seq<char>| rpc_counters(line) is Some),
            lines@.len() == all.len(),
            forall|j: int| 0 <= j < lines@.len() ==> (#[trigger] lines@[j])@ == all[j],
            i <= lines@.len(),
            forall|j: int| 0 <= j < i ==> !p(#[trigger] all[j]),
        decreases lines@.len() - i,
    {
        assert(lines@[i as int]@ == all[i as int]);
        let found: Option<RpcClient> = read_rpc(&lines[i]);
        if found.is_some() {
            proof {
                search::lemma_first_is(all, p, i as int);
            }
            return found;
        }
        i = i + 1;
    }
    proof {
        search::lemma_first_none(all, p);
    }
    None
}

} // verus!
