//! That the kernel's tables are read as the kernel writes them.

use crate::ports;
use crate::procfs;
use crate::table;
use crate::types::IpAddr;
use vstd::prelude::*;

verus! {

/// Whether a text is a word: not empty, and without white space.
pub open spec fn is_word(w: Seq<char>) -> bool {
    w.len() > 0 && forall|i: int| 0 <= i < w.len() ==> !ports::is_white(#[trigger] w[i])
}

/// White space ends a word and is none itself; a word behind white space, or at the start, comes
/// out whole, behind those before it.
pub proof fn law_words(s: Seq<char>, c: char, w: Seq<char>)
    ensures
        procfs::words(Seq::empty()).len() == 0,
        ports::is_white(c) ==> procfs::words(s.push(c)) == procfs::words(s),
        is_word(w) && (s.len() == 0 || ports::is_white(s.last())) ==> procfs::words(s + w)
            == procfs::words(s).push(w),
    decreases w.len(),
{
    assert(s.push(c).drop_last() =~= s);
    if is_word(w) && (s.len() == 0 || ports::is_white(s.last())) {
        let front = w.drop_last();
        let all = s + w;
        assert(all.drop_last() =~= s + front);
        assert(!ports::is_white(w[w.len() - 1]));
        if front.len() == 0 {
            assert(s + front =~= s);
            assert(w =~= seq![w.last()]);
            assert(procfs::words(all) =~= procfs::words(s).push(w));
        } else {
            assert(is_word(front)) by {
                assert forall|i: int| 0 <= i < front.len() implies !ports::is_white(#[trigger] front[i]) by {
                    assert(front[i] == w[i]);
                }
            }
            law_words(s, c, front);
            assert((s + front).last() == front.last());
            assert(!ports::is_white(front[front.len() - 1]));
            assert(front.push(w.last()) =~= w);
            assert(procfs::words(all) =~= procfs::words(s).push(w));
        }
    }
}

/// Words with a blank between neighbours.
pub open spec fn spaced(ws: Seq<Seq<char>>) -> Seq<char>
    decreases ws.len(),
{
    if ws.len() == 0 {
        Seq::empty()
    } else if ws.len() == 1 {
        ws[0]
    } else {
        spaced(ws.drop_last()).push(' ') + ws.last()
    }
}

/// Words with blanks between them are read back, behind whatever white space.
pub proof fn law_words_read_back(lead: Seq<char>, ws: Seq<Seq<char>>)
    requires
        forall|i: int| 0 <= i < lead.len() ==> ports::is_white(#[trigger] lead[i]),
        forall|i: int| 0 <= i < ws.len() ==> is_word(#[trigger] ws[i]),
    ensures
        procfs::words(lead + spaced(ws)) == ws,
    decreases ws.len(), lead.len(),
{
    if ws.len() == 0 {
        assert(lead + spaced(ws) =~= lead);
        if lead.len() > 0 {
            let front = lead.drop_last();
            assert forall|i: int| 0 <= i < front.len() implies ports::is_white(#[trigger] front[i]) by {
                assert(front[i] == lead[i]);
            }
            law_words_read_back(front, ws);
            assert(front + spaced(ws) =~= front);
            assert(ports::is_white(lead[lead.len() - 1]));
            law_words(front, lead.last(), Seq::empty());
            assert(front.push(lead.last()) =~= lead);
        } else {
            assert(lead =~= Seq::empty());
            law_words(lead, ' ', Seq::empty());
        }
        assert(procfs::words(lead) =~= ws);
    } else {
        let front = ws.drop_last();
        let w = ws.last();
        assert(is_word(ws[ws.len() - 1]));
        assert forall|i: int| 0 <= i < front.len() implies is_word(#[trigger] front[i]) by {
            assert(front[i] == ws[i]);
        }
        law_words_read_back(lead, front);
        assert(front.push(w) =~= ws);
        if ws.len() == 1 {
            assert(front =~= Seq::empty());
            assert(lead + spaced(front) =~= lead);
            if lead.len() > 0 {
                assert(ports::is_white(lead[lead.len() - 1]));
            }
            law_words(lead, ' ', w);
            assert(lead + spaced(ws) =~= lead + w);
        } else {
            let before = lead + spaced(front);
            law_words(before, ' ', Seq::empty());
            law_words(before.push(' '), ' ', w);
            assert(lead + spaced(ws) =~= before.push(' ') + w);
        }
    }
}

/// The hexadecimal digit of a number below sixteen.
pub open spec fn hex_char(d: nat) -> char {
    if d < 10 {
        ('0' as int + d) as char
    } else {
        ('A' as int + d - 10) as char
    }
}

/// A byte in two hexadecimal digits.
pub open spec fn byte_text(b: nat) -> Seq<char> {
    seq![hex_char(b / 16), hex_char(b % 16)]
}

/// Four bytes in eight hexadecimal digits, the lowest byte first.
#[verifier::opaque]
pub open spec fn word_text(w: nat) -> Seq<char> {
    byte_text(w % 0x100) + byte_text(w / 0x100 % 0x100) + byte_text(w / 0x1_0000 % 0x100) + byte_text(
        w / 0x100_0000,
    )
}

/// Sixteen bytes in thirty-two hexadecimal digits: four times four bytes, the highest four first.
#[verifier::opaque]
pub open spec fn long_text(a: nat) -> Seq<char> {
    word_text(a / 0x1_0000_0000_0000_0000_0000_0000) + word_text(
        a / 0x1_0000_0000_0000_0000 % 0x1_0000_0000,
    ) + word_text(a / 0x1_0000_0000 % 0x1_0000_0000) + word_text(a % 0x1_0000_0000)
}

/// A port in four hexadecimal digits.
#[verifier::opaque]
pub open spec fn port_text(p: nat) -> Seq<char> {
    byte_text(p / 0x100) + byte_text(p % 0x100)
}

proof fn lemma_byte_value(s: Seq<char>, b: nat, v: nat)
    requires
        b < 0x100,
        procfs::hex_value(s) == Some(v),
    ensures
        procfs::hex_value(s + byte_text(b)) == Some(v * 0x100 + b),
{
    let one = s.push(hex_char(b / 16));
    let two = one.push(hex_char(b % 16));
    assert(s + byte_text(b) =~= two);
    assert(one.drop_last() =~= s);
    assert(two.drop_last() =~= one);
    assert(procfs::hex_digit(hex_char(b / 16)) == Some(b / 16));
    assert(procfs::hex_digit(hex_char(b % 16)) == Some(b % 16));
    assert(procfs::hex_value(one) == Some(v * 16 + b / 16));
}

proof fn lemma_word_value(w: nat)
    requires
        w < 0x1_0000_0000,
    ensures
        word_text(w).len() == 8,
        procfs::hex_value(word_text(w)) matches Some(n) && procfs::swapped(n) == w,
{
    reveal(word_text);
    let a = w % 0x100;
    let b = w / 0x100 % 0x100;
    let c = w / 0x1_0000 % 0x100;
    let d = w / 0x100_0000;
    let e = Seq::<char>::empty();
    lemma_byte_value(e, a, 0);
    assert(e + byte_text(a) =~= byte_text(a));
    lemma_byte_value(byte_text(a), b, a);
    lemma_byte_value(byte_text(a) + byte_text(b), c, a * 0x100 + b);
    lemma_byte_value(byte_text(a) + byte_text(b) + byte_text(c), d, (a * 0x100 + b) * 0x100 + c);
    let n = ((a * 0x100 + b) * 0x100 + c) * 0x100 + d;
    assert(procfs::hex_value(word_text(w)) == Some(n));
    lemma_bytes(w);
    lemma_swapped(a, b, c, d);
}

proof fn lemma_bytes(w: nat)
    requires
        w < 0x1_0000_0000,
    ensures
        w == (w / 0x100_0000) * 0x100_0000 + (w / 0x1_0000 % 0x100) * 0x1_0000 + (w / 0x100 % 0x100) * 0x100 + w
            % 0x100,
        w / 0x100_0000 < 0x100,
{
}

proof fn lemma_swapped(a: nat, b: nat, c: nat, d: nat)
    requires
        a < 0x100,
        b < 0x100,
        c < 0x100,
        d < 0x100,
    ensures
        procfs::swapped(((a * 0x100 + b) * 0x100 + c) * 0x100 + d) == d * 0x100_0000 + c * 0x1_0000 + b * 0x100 + a,
{
    let n = ((a * 0x100 + b) * 0x100 + c) * 0x100 + d;
    assert(n % 0x100 == d);
    assert(n / 0x100 == (a * 0x100 + b) * 0x100 + c);
    assert(n / 0x100 % 0x100 == c);
    assert(n / 0x1_0000 == a * 0x100 + b);
    assert(n / 0x1_0000 % 0x100 == b);
    assert(n / 0x100_0000 == a);
}

proof fn lemma_quarters(n: nat)
    requires
        n < 0x1_0000_0000_0000_0000_0000_0000_0000_0000,
    ensures
        (n / 0x1_0000_0000_0000_0000_0000_0000) * 0x1_0000_0000_0000_0000_0000_0000 + (n / 0x1_0000_0000_0000_0000
            % 0x1_0000_0000) * 0x1_0000_0000_0000_0000 + (n / 0x1_0000_0000 % 0x1_0000_0000) * 0x1_0000_0000 + n
            % 0x1_0000_0000 == n,
        n / 0x1_0000_0000_0000_0000_0000_0000 < 0x1_0000_0000,
{
    let k: int = 0x1_0000_0000;
    let x = n as int;
    vstd::arithmetic::div_mod::lemma_div_denominator(x, k, k);
    vstd::arithmetic::div_mod::lemma_div_denominator(x, k * k, k);
    assert(k * k == 0x1_0000_0000_0000_0000) by (nonlinear_arith)
        requires
            k == 0x1_0000_0000,
    ;
    assert(k * k * k == 0x1_0000_0000_0000_0000_0000_0000) by (nonlinear_arith)
        requires
            k == 0x1_0000_0000,
    ;
    let q = x / k;
    let r = q / k;
    assert(x / 0x1_0000_0000_0000_0000 == r);
    assert(x / 0x1_0000_0000_0000_0000_0000_0000 == r / k);
}

/// The address that the kernel prints in eight or thirty-two digits is read back.
pub proof fn law_address_read_back(v4: u32, v6: u128)
    ensures
        procfs::address(word_text(v4 as nat), false) == Some(IpAddr::V4(v4)),
        procfs::address(long_text(v6 as nat), true) == Some(IpAddr::V6(v6)),
{
    reveal(long_text);
    lemma_word_value(v4 as nat);
    let n = v6 as nat;
    let a = n / 0x1_0000_0000_0000_0000_0000_0000;
    let b = n / 0x1_0000_0000_0000_0000 % 0x1_0000_0000;
    let c = n / 0x1_0000_0000 % 0x1_0000_0000;
    let d = n % 0x1_0000_0000;
    lemma_quarters(n);
    lemma_word_value(a);
    lemma_word_value(b);
    lemma_word_value(c);
    lemma_word_value(d);
    let s = long_text(n);
    assert(s.len() == 32);
    assert(s.subrange(0, 8) =~= word_text(a));
    assert(s.subrange(8, 16) =~= word_text(b));
    assert(s.subrange(16, 24) =~= word_text(c));
    assert(s.subrange(24, 32) =~= word_text(d));
}

/// A line of the table of connections shows a connection to the remote address and port that the
/// kernel prints in its third word, where the fourth is `01` and the port is wanted, and none
/// otherwise.
pub proof fn law_connection_read_back(line: Seq<char>, v4: u32, v6: u128, port: u16, ports_wanted: Seq<u16>)
    requires
        procfs::words(line).len() >= 4,
    ensures
        procfs::words(line)[2] == word_text(v4 as nat) + seq![':'] + port_text(port as nat)
            && procfs::words(line)[3] == seq!['0', '1'] ==> procfs::remote(line, false, ports_wanted)
            == if ports_wanted.contains(port) {
            Some(IpAddr::V4(v4))
        } else {
            None
        },
        procfs::words(line)[2] == long_text(v6 as nat) + seq![':'] + port_text(port as nat)
            && procfs::words(line)[3] == seq!['0', '1'] ==> procfs::remote(line, true, ports_wanted)
            == if ports_wanted.contains(port) {
            Some(IpAddr::V6(v6))
        } else {
            None
        },
        procfs::words(line)[3] != seq!['0', '1'] ==> procfs::remote(line, false, ports_wanted) is None
            && procfs::remote(line, true, ports_wanted) is None,
{
    lemma_word_digits(v4 as nat);
    lemma_long_digits(v6 as nat);
    if procfs::words(line)[3] == seq!['0', '1'] {
        if procfs::words(line)[2] == word_text(v4 as nat) + seq![':'] + port_text(port as nat) {
            lemma_remote(line, word_text(v4 as nat), port, false, ports_wanted);
            law_address_read_back(v4, v6);
        }
        if procfs::words(line)[2] == long_text(v6 as nat) + seq![':'] + port_text(port as nat) {
            lemma_remote(line, long_text(v6 as nat), port, true, ports_wanted);
            law_address_read_back(v4, v6);
        }
    }
}

proof fn lemma_remote(line: Seq<char>, a: Seq<char>, port: u16, v6: bool, ports_wanted: Seq<u16>)
    requires
        forall|i: int| 0 <= i < a.len() ==> #[trigger] a[i] != ':',
        procfs::words(line).len() >= 4,
        procfs::words(line)[2] == a + seq![':'] + port_text(port as nat),
        procfs::words(line)[3] == seq!['0', '1'],
    ensures
        procfs::remote(line, v6, ports_wanted) == if ports_wanted.contains(port) {
            procfs::address(a, v6)
        } else {
            None
        },
{
    lemma_port_value(port);
    ports::lemma_piece(a, ':');
    ports::lemma_pieces_append(a, port_text(port as nat), ':');
}

proof fn lemma_port_value(port: u16)
    ensures
        port_text(port as nat).len() == 4,
        procfs::hex_value(port_text(port as nat)) == Some(port as nat),
        forall|i: int| 0 <= i < port_text(port as nat).len() ==> #[trigger] port_text(port as nat)[i] != ':',
{
    reveal(port_text);
    let n = port as nat;
    let e = Seq::<char>::empty();
    lemma_byte_value(e, n / 0x100, 0);
    assert(e + byte_text(n / 0x100) =~= byte_text(n / 0x100));
    lemma_byte_value(byte_text(n / 0x100), n % 0x100, n / 0x100);
}

proof fn lemma_word_digits(w: nat)
    requires
        w < 0x1_0000_0000,
    ensures
        word_text(w).len() == 8,
        forall|i: int| 0 <= i < 8 ==> #[trigger] word_text(w)[i] != ':',
{
    reveal(word_text);
}

proof fn lemma_long_digits(n: nat)
    requires
        n < 0x1_0000_0000_0000_0000_0000_0000_0000_0000,
    ensures
        forall|i: int| 0 <= i < long_text(n).len() ==> #[trigger] long_text(n)[i] != ':',
{
    reveal(long_text);
    let a = n / 0x1_0000_0000_0000_0000_0000_0000;
    let b = n / 0x1_0000_0000_0000_0000 % 0x1_0000_0000;
    let c = n / 0x1_0000_0000 % 0x1_0000_0000;
    let e = n % 0x1_0000_0000;
    lemma_quarters(n);
    lemma_word_digits(a);
    lemma_word_digits(b);
    lemma_word_digits(c);
    lemma_word_digits(e);
    let s = long_text(n);
    assert forall|i: int| 0 <= i < s.len() implies #[trigger] s[i] != ':' by {
        if i < 8 {
            assert(s[i] == word_text(a)[i]);
        } else if i < 16 {
            assert(s[i] == word_text(b)[i - 8]);
        } else if i < 24 {
            assert(s[i] == word_text(c)[i - 16]);
        } else {
            assert(s[i] == word_text(e)[i - 24]);
        }
    }
}

/// The lines that show a connection to an address.
pub open spec fn lines_to(lines: Seq<Seq<char>>, v6: bool, ports_wanted: Seq<u16>, ip: IpAddr) -> Seq<Seq<char>> {
    lines.filter(|line: Seq<char>| procfs::remote(line, v6, ports_wanted) == Some(ip))
}

/// Every address counts as many connections more as there are lines that show one to it, and the
/// lines that show any are kept in their order, without the white space at their ends.
pub proof fn law_connections_counted(
    entries: Seq<(IpAddr, u64)>,
    lines: Seq<Seq<char>>,
    v6: bool,
    ports_wanted: Seq<u16>,
    ip: IpAddr,
)
    requires
        (match table::lookup(entries, ip) {
            Some(n) => n as nat,
            None => 0,
        }) + lines.len() <= u64::MAX,
    ensures
        ({
            let n = lines_to(lines, v6, ports_wanted, ip).len();
            table::lookup(procfs::tallied(entries, lines, v6, ports_wanted), ip) == if n == 0 {
                table::lookup(entries, ip)
            } else {
                match table::lookup(entries, ip) {
                    Some(m) => Some((m + n) as u64),
                    None => Some(n as u64),
                }
            }
        }),
        lines_to(lines, v6, ports_wanted, ip).len() <= lines.len(),
        procfs::matching(lines, v6, ports_wanted) == lines.filter(
            |line: Seq<char>| procfs::remote(line, v6, ports_wanted) is Some,
        ).map_values(|line: Seq<char>| ports::trimmed(line)),
    decreases lines.len(),
{
    reveal(Seq::filter);
    let p = |line: Seq<char>| procfs::remote(line, v6, ports_wanted) is Some;
    let f = |line: Seq<char>| ports::trimmed(line);
    if lines.len() > 0 {
        let front = lines.drop_last();
        law_connections_counted(entries, front, v6, ports_wanted, ip);
        let before = procfs::tallied(entries, front, v6, ports_wanted);
        if let Some(found) = procfs::remote(lines.last(), v6, ports_wanted) {
            table::law_stored(
                before,
                found,
                procfs::one_more(table::lookup(before, found)),
                ip,
            );
            assert(lines.filter(p) == front.filter(p).push(lines.last()));
            assert(front.filter(p).push(lines.last()).map_values(f) =~= front.filter(p).map_values(f).push(
                f(lines.last()),
            ));
        } else {
            assert(lines.filter(p) == front.filter(p));
        }
    } else {
        assert(lines.filter(p).map_values(f) =~= procfs::matching(lines, v6, ports_wanted));
    }
}

} // verus!
