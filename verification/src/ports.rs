//! Decimal numbers and lists of ports in text.

use crate::text;
use crate::text::{chars_of, text_of};
use vstd::prelude::*;
use vstd::string::*;

verus! {

/// Why a text is not a number in range.
#[derive(Debug, Clone, Copy, PartialEq, Eq, Structural)]
pub enum NumberFault {
    Empty,
    InvalidDigit,
    TooLarge,
}

/// Whether a character is a decimal digit.
pub open spec fn is_digit(c: char) -> bool {
    '0' <= c <= '9'
}

/// The number that digits denote, read from the left until one is not a digit or the number is
/// past `max`.
pub open spec fn digits_value(s: Seq<char>, max: nat) -> Result<nat, NumberFault>
    decreases s.len(),
{
    if s.len() == 0 {
        Ok(0)
    } else {
        match digits_value(s.drop_last(), max) {
            Ok(v) => {
                let next = v * 10 + (s.last() as nat - '0' as nat);
                if !is_digit(s.last()) {
                    Err(NumberFault::InvalidDigit)
                } else if next > max {
                    Err(NumberFault::TooLarge)
                } else {
                    Ok(next as nat)
                }
            },
            Err(e) => Err(e),
        }
    }
}

/// The number that a text denotes: digits, after a plus sign or not.
pub open spec fn number_value(s: Seq<char>, max: nat) -> Result<nat, NumberFault> {
    if s.len() == 0 {
        Err(NumberFault::Empty)
    } else if s[0] == '+' {
        if s.len() == 1 {
            Err(NumberFault::InvalidDigit)
        } else {
            digits_value(s.skip(1), max)
        }
    } else {
        digits_value(s, max)
    }
}

/// A fault stays one whatever follows.
proof fn lemma_fault_stays(s: Seq<char>, i: int, max: nat)
    requires
        0 <= i <= s.len(),
        digits_value(s.take(i), max) is Err,
    ensures
        digits_value(s, max) == digits_value(s.take(i), max),
    decreases s.len() - i,
{
    if i < s.len() {
        assert(s.take(i + 1).drop_last() =~= s.take(i));
        lemma_fault_stays(s, i + 1, max);
    } else {
        assert(s.take(i) =~= s);
    }
}

/// The number that a text denotes.
pub fn parse_number(s: &Vec<char>, max: u64) -> (r: Result<u64, NumberFault>)
    ensures
        match r {
            Ok(v) => number_value(s@, max as nat) == Ok::<nat, NumberFault>(v as nat) && v <= max,
            Err(e) => number_value(s@, max as nat) == Err::<nat, NumberFault>(e),
        },
{
    if s.len() == 0 {
        return Err(NumberFault::Empty);
    }
    let start: usize = if s[0] == '+' {
        1
    } else {
        0
    };
    if start == s.len() {
        return Err(NumberFault::InvalidDigit);
    }
    let ghost digits = s@.skip(start as int);
    assert(s@.skip(0) =~= s@);
    let mut v: u64 = 0;
    let mut i: usize = start;
    while i < s.len()
        invariant
            v <= max,
            start <= i <= s@.len(),
            start <= 1,
            digits == s@.skip(start as int),
            number_value(s@, max as nat) == digits_value(digits, max as nat),
            digits_value(digits.take(i - start), max as nat) == Ok::<nat, NumberFault>(v as nat),
        decreases s@.len() - i,
    {
        let c: char = s[i];
        proof {
            assert(digits.take(i + 1 - start).drop_last() =~= digits.take(i - start));
            assert(digits.take(i + 1 - start).last() == c);
        }
        if c < '0' || '9' < c {
            proof {
                lemma_fault_stays(digits, i + 1 - start, max as nat);
            }
            return Err(NumberFault::InvalidDigit);
        }
        let d: u64 = c as u64 - '0' as u64;
        if v > max / 10 || d > max - v * 10 {
            proof {
                lemma_fault_stays(digits, i + 1 - start, max as nat);
            }
            return Err(NumberFault::TooLarge);
        }
        v = v * 10 + d;
        i = i + 1;
    }
    assert(digits.take(i - start) =~= digits);
    Ok(v)
}

/// Whether a character is white space.
pub open spec fn is_white(c: char) -> bool {
    ||| '\u{9}' <= c <= '\u{d}'
    ||| c == ' '
    ||| c == '\u{85}'
    ||| c == '\u{a0}'
    ||| c == '\u{1680}'
    ||| '\u{2000}' <= c <= '\u{200a}'
    ||| c == '\u{2028}'
    ||| c == '\u{2029}'
    ||| c == '\u{202f}'
    ||| c == '\u{205f}'
    ||| c == '\u{3000}'
}

/// Whether a character is white space.
pub fn white(c: char) -> (r: bool)
    ensures
        r == is_white(c),
{
    ('\u{9}' <= c && c <= '\u{d}') || c == ' ' || c == '\u{85}' || c == '\u{a0}' || c == '\u{1680}'
        || ('\u{2000}' <= c && c <= '\u{200a}') || c == '\u{2028}' || c == '\u{2029}' || c
        == '\u{202f}' || c == '\u{205f}' || c == '\u{3000}'
}

/// A text without the white space at its start.
pub open spec fn trimmed_start(s: Seq<char>) -> Seq<char>
    decreases s.len(),
{
    if s.len() > 0 && is_white(s[0]) {
        trimmed_start(s.skip(1))
    } else {
        s
    }
}

/// A text without the white space at its end.
pub open spec fn trimmed_end(s: Seq<char>) -> Seq<char>
    decreases s.len(),
{
    if s.len() > 0 && is_white(s.last()) {
        trimmed_end(s.drop_last())
    } else {
        s
    }
}

/// A text without the white space at its ends.
pub open spec fn trimmed(s: Seq<char>) -> Seq<char> {
    trimmed_end(trimmed_start(s))
}

/// A text without the white space at its ends.
pub fn trim(s: &Vec<char>) -> (r: Vec<char>)
    ensures
        r@ == trimmed(s@),
{
    let mut lo: usize = 0;
    assert(s@.skip(0) =~= s@);
    while lo < s.len() && white(s[lo])
        invariant
            lo <= s@.len(),
            trimmed_start(s@.skip(lo as int)) == trimmed_start(s@),
        decreases s@.len() - lo,
    {
        assert(s@.skip(lo as int).skip(1) =~= s@.skip(lo + 1));
        lo = lo + 1;
    }
    let ghost rest = s@.skip(lo as int);
    let mut hi: usize = s.len();
    assert(rest =~= s@.subrange(lo as int, hi as int));
    while hi > lo && white(s[hi - 1])
        invariant
            lo <= hi <= s@.len(),
            trimmed_end(s@.subrange(lo as int, hi as int)) == trimmed_end(rest),
        decreases hi,
    {
        assert(s@.subrange(lo as int, hi as int).drop_last() =~= s@.subrange(lo as int, hi - 1));
        hi = hi - 1;
    }
    let mut r: Vec<char> = Vec::new();
    let mut i: usize = lo;
    while i < hi
        invariant
            lo <= i <= hi <= s@.len(),
            r@ == s@.subrange(lo as int, i as int),
        decreases hi - i,
    {
        r.push(s[i]);
        i = i + 1;
        assert(r@ =~= s@.subrange(lo as int, i as int));
    }
    r
}

/// The pieces of a text between the characters `sep`.
pub open spec fn pieces(s: Seq<char>, sep: char) -> Seq<Seq<char>>
    decreases s.len(),
{
    if s.len() == 0 {
        seq![Seq::empty()]
    } else {
        let before = pieces(s.drop_last(), sep);
        if s.last() == sep {
            before.push(Seq::empty())
        } else {
            before.drop_last().push(before.last().push(s.last()))
        }
    }
}

/// The pieces of a text between the characters `sep`.
pub fn split(s: &Vec<char>, sep: char) -> (r: Vec<Vec<char>>)
    ensures
        r@.len() == pieces(s@, sep).len(),
        r@.len() > 0,
        forall|i: int| 0 <= i < r@.len() ==> (#[trigger] r@[i])@ == pieces(s@, sep)[i],
{
    let mut done: Vec<Vec<char>> = Vec::new();
    let mut piece: Vec<char> = Vec::new();
    let mut i: usize = 0;
    while i < s.len()
        invariant
            i <= s@.len(),
            pieces(s@.take(i as int), sep).len() == done@.len() + 1,
            pieces(s@.take(i as int), sep).last() == piece@,
            forall|j: int|
                0 <= j < done@.len() ==> (#[trigger] done@[j])@ == pieces(s@.take(i as int), sep)[j],
        decreases s@.len() - i,
    {
        assert(s@.take(i + 1).drop_last() =~= s@.take(i as int));
        let c: char = s[i];
        if c == sep {
            done.push(piece);
            piece = Vec::new();
        } else {
            piece.push(c);
        }
        i = i + 1;
    }
    assert(s@.take(i as int) =~= s@);
    done.push(piece);
    done
}

/// Why a list of ports is not one: the piece that is no port, and what is wrong with it.
#[derive(Debug)]
pub struct PortError {
    pub port: String,
    pub fault: NumberFault,
}

impl PortError {
    /// What is said of the error.
    pub open spec fn text(self) -> Seq<char> {
        "invalid port: "@ + self.port@ + match self.fault {
            NumberFault::Empty => ": cannot parse integer from empty string"@,
            NumberFault::InvalidDigit => ": invalid digit found in string"@,
            NumberFault::TooLarge => ": number too large to fit in target type"@,
        }
    }

    /// What is said of the error.
    pub fn message(&self) -> (r: String)
        ensures
            r@ == self.text(),
    {
        let mut r: String = "invalid port: ".to_string();
        r.append(self.port.as_str());
        r.append(
            match self.fault {
                NumberFault::Empty => ": cannot parse integer from empty string",
                NumberFault::InvalidDigit => ": invalid digit found in string",
                NumberFault::TooLarge => ": number too large to fit in target type",
            },
        );
        r
    }
}

/// The port that a piece of a list denotes.
pub open spec fn port_value(piece: Seq<char>) -> Result<nat, NumberFault> {
    number_value(trimmed(piece), u16::MAX as nat)
}

/// The ports of a list with commas between them.
pub fn parse_ports(s: &str) -> (r: Result<Vec<u16>, PortError>)
    ensures
        match r {
            Ok(v) => {
                &&& v@.len() == pieces(s@, ',').len()
                &&& v@.len() > 0
                &&& forall|i: int|
                    0 <= i < v@.len() ==> port_value(#[trigger] pieces(s@, ',')[i]) == Ok::<nat, NumberFault>(
                        v@[i] as nat,
                    )
            },
            Err(e) => exists|i: int|
                {
                    &&& 0 <= i < pieces(s@, ',').len()
                    &&& #[trigger] pieces(s@, ',')[i] == e.port@
                    &&& port_value(e.port@) == Err::<nat, NumberFault>(e.fault)
                    &&& forall|j: int| 0 <= j < i ==> port_value(#[trigger] pieces(s@, ',')[j]) is Ok
                },
        },
{
    let parts: Vec<Vec<char>> = split(&chars_of(s), ',');
    let ghost all = pieces(s@, ',');
    let mut v: Vec<u16> = Vec::new();
    let mut i: usize = 0;
    while i < parts.len()
        invariant
            all == pieces(s@, ','),
            parts@.len() == all.len(),
            forall|j: int| 0 <= j < parts@.len() ==> (#[trigger] parts@[j])@ == all[j],
            i <= parts@.len(),
            v@.len() == i,
            forall|j: int|
                0 <= j < i ==> port_value(#[trigger] all[j]) == Ok::<nat, NumberFault>(v@[j] as nat),
        decreases parts@.len() - i,
    {
        match parse_number(&trim(&parts[i]), 0xffff) {
            Ok(n) => {
                v.push(n as u16);
            },
            Err(fault) => {
                let port: String = text_of(parts[i].as_slice());
                assert(all[i as int] == port@);
                return Err(PortError { port, fault });
            },
        }
        i = i + 1;
    }
    Ok(v)
}

/// Ports in decimal with commas between them.
pub open spec fn listed(ports: Seq<u16>) -> Seq<char>
    decreases ports.len(),
{
    if ports.len() == 0 {
        Seq::empty()
    } else if ports.len() == 1 {
        text::decimal(ports[0] as nat)
    } else {
        listed(ports.drop_last()) + seq![','] + text::decimal(ports.last() as nat)
    }
}

pub(crate) proof fn lemma_decimal_digits(n: nat)
    ensures
        text::decimal(n).len() > 0,
        forall|i: int| 0 <= i < text::decimal(n).len() ==> is_digit(#[trigger] text::decimal(n)[i]),
    decreases n,
{
    if n >= 10 {
        lemma_decimal_digits(n / 10);
    }
}

proof fn lemma_decimal_value(n: nat, max: nat)
    requires
        n <= max,
    ensures
        digits_value(text::decimal(n), max) == Ok::<nat, NumberFault>(n),
    decreases n,
{
    let s = text::decimal(n);
    if n < 10 {
        assert(s.drop_last() =~= Seq::empty());
        assert(digits_value(s.drop_last(), max) == Ok::<nat, NumberFault>(0));
    } else {
        lemma_decimal_value(n / 10, max);
        assert(s.drop_last() =~= text::decimal(n / 10));
    }
}

/// A decimal numeral denotes its number, where that is in range.
pub proof fn law_decimal_read_back(n: nat, max: nat)
    requires
        n <= max,
    ensures
        number_value(text::decimal(n), max) == Ok::<nat, NumberFault>(n),
{
    lemma_decimal_digits(n);
    lemma_decimal_value(n, max);
    assert(is_digit(text::decimal(n)[0]));
}

pub(crate) proof fn lemma_piece(d: Seq<char>, sep: char)
    requires
        forall|i: int| 0 <= i < d.len() ==> #[trigger] d[i] != sep,
    ensures
        pieces(d, sep) == seq![d],
    decreases d.len(),
{
    if d.len() > 0 {
        lemma_piece(d.drop_last(), sep);
        assert(d.drop_last().push(d.last()) =~= d);
        assert(pieces(d, sep) =~= seq![d]);
    } else {
        assert(d =~= Seq::empty());
    }
}

pub(crate) proof fn lemma_pieces_append(s: Seq<char>, d: Seq<char>, sep: char)
    requires
        forall|i: int| 0 <= i < d.len() ==> #[trigger] d[i] != sep,
    ensures
        pieces(s + seq![sep] + d, sep) == pieces(s, sep).push(d),
    decreases d.len(),
{
    let all = s + seq![sep] + d;
    if d.len() > 0 {
        let front = d.drop_last();
        lemma_pieces_append(s, front, sep);
        assert(all.drop_last() =~= s + seq![sep] + front);
        assert(front.push(d.last()) =~= d);
        assert(pieces(all, sep) =~= pieces(s, sep).push(d));
    } else {
        assert(all.drop_last() =~= s);
        assert(d =~= Seq::empty());
    }
}

/// A list of ports in decimal is read back as those ports.
pub proof fn law_ports_read_back(ports: Seq<u16>)
    requires
        ports.len() > 0,
    ensures
        pieces(listed(ports), ',').len() == ports.len(),
        forall|i: int|
            0 <= i < ports.len() ==> port_value(#[trigger] pieces(listed(ports), ',')[i]) == Ok::<
                nat,
                NumberFault,
            >(ports[i] as nat),
    decreases ports.len(),
{
    let d = text::decimal(ports.last() as nat);
    lemma_decimal_digits(ports.last() as nat);
    assert forall|i: int| 0 <= i < d.len() implies #[trigger] d[i] != ',' by {
        assert(is_digit(d[i]));
    }
    assert(is_digit(d[0]) && is_digit(d[d.len() - 1]));
    assert(trimmed(d) == d);
    law_decimal_read_back(ports.last() as nat, u16::MAX as nat);
    if ports.len() == 1 {
        lemma_piece(d, ',');
    } else {
        let front = ports.drop_last();
        law_ports_read_back(front);
        lemma_pieces_append(listed(front), d, ',');
        assert forall|i: int| 0 <= i < ports.len() implies port_value(
            #[trigger] pieces(listed(ports), ',')[i],
        ) == Ok::<nat, NumberFault>(ports[i] as nat) by {
            if i < front.len() {
                assert(pieces(listed(ports), ',')[i] == pieces(listed(front), ',')[i]);
                assert(front[i] == ports[i]);
            }
        }
    }
}

} // verus!
