//! How numbers and texts are read.

use crate::ports;
use crate::ports::NumberFault;
use crate::rates;
use crate::text;
use vstd::prelude::*;

verus! {

/// A numeral is read with or without a plus sign, and is too large past the limit.
pub proof fn law_numerals(n: nat, max: nat)
    ensures
        n <= max ==> ports::number_value(text::decimal(n), max) == Ok::<nat, NumberFault>(n),
        n <= max ==> ports::number_value(seq!['+'] + text::decimal(n), max) == Ok::<nat, NumberFault>(n),
        n > max ==> ports::number_value(text::decimal(n), max) == Err::<nat, NumberFault>(NumberFault::TooLarge),
{
    let d = text::decimal(n);
    ports::lemma_decimal_digits(n);
    assert(ports::is_digit(d[0]));
    assert((seq!['+'] + d).skip(1) =~= d);
    if n <= max {
        ports::law_decimal_read_back(n, max);
    } else {
        lemma_too_large(n, max);
    }
}

proof fn lemma_too_large(n: nat, max: nat)
    requires
        n > max,
    ensures
        ports::digits_value(text::decimal(n), max) == Err::<nat, NumberFault>(NumberFault::TooLarge),
    decreases n,
{
    let d = text::decimal(n);
    ports::lemma_decimal_digits(n);
    assert(ports::is_digit(d[d.len() - 1]));
    if n < 10 {
        assert(d.drop_last() =~= Seq::empty());
        assert(ports::digits_value(d.drop_last(), max) == Ok::<nat, NumberFault>(0));
    } else {
        assert(d.drop_last() =~= text::decimal(n / 10));
        if n / 10 > max {
            lemma_too_large(n / 10, max);
        } else {
            ports::law_decimal_read_back(n / 10, max);
            ports::lemma_decimal_digits(n / 10);
            assert(ports::is_digit(text::decimal(n / 10)[0]));
        }
    }
}

/// A text without digits is no number: nothing at all is empty, and a sign alone or a first
/// character that is neither a digit nor a plus sign is invalid.
pub proof fn law_no_numerals(c: char, rest: Seq<char>, max: nat)
    ensures
        ports::number_value(Seq::empty(), max) == Err::<nat, NumberFault>(NumberFault::Empty),
        ports::number_value(seq!['+'], max) == Err::<nat, NumberFault>(NumberFault::InvalidDigit),
        !('0' <= c <= '9') && c != '+' ==> ports::number_value(seq![c] + rest, max) == Err::<nat, NumberFault>(
            NumberFault::InvalidDigit,
        ),
{
    let s = seq![c] + rest;
    assert(s[0] == c);
    if !('0' <= c <= '9') && c != '+' {
        lemma_invalid(c, rest, max);
    }
}

proof fn lemma_invalid(c: char, rest: Seq<char>, max: nat)
    requires
        !ports::is_digit(c),
    ensures
        ports::digits_value(seq![c] + rest, max) == Err::<nat, NumberFault>(NumberFault::InvalidDigit),
    decreases rest.len(),
{
    let s = seq![c] + rest;
    if rest.len() > 0 {
        lemma_invalid(c, rest.drop_last(), max);
        assert(s.drop_last() =~= seq![c] + rest.drop_last());
    } else {
        assert(s.drop_last() =~= Seq::empty());
        assert(ports::digits_value(s.drop_last(), max) == Ok::<nat, NumberFault>(0));
        assert(s.last() == c);
    }
}

/// Whether a text is white space alone.
pub open spec fn blank(s: Seq<char>) -> bool {
    forall|i: int| 0 <= i < s.len() ==> ports::is_white(#[trigger] s[i])
}

/// White space at the ends of a text is taken off, and what is between two characters that are
/// none stays.
pub proof fn law_trimmed(before: Seq<char>, s: Seq<char>, after: Seq<char>)
    requires
        blank(before),
        blank(after),
        s.len() > 0,
        !ports::is_white(s[0]),
        !ports::is_white(s.last()),
    ensures
        ports::trimmed(before + s + after) == s,
        ports::trimmed(before).len() == 0,
{
    lemma_start(before, s + after);
    assert(before + s + after =~= before + (s + after));
    lemma_end(s, after);
    lemma_start(before, Seq::empty());
    assert(before + Seq::<char>::empty() =~= before);
}

proof fn lemma_start(before: Seq<char>, s: Seq<char>)
    requires
        blank(before),
        s.len() > 0 ==> !ports::is_white(s[0]),
    ensures
        ports::trimmed_start(before + s) == s,
    decreases before.len(),
{
    if before.len() > 0 {
        assert(ports::is_white(before[0]));
        let rest = before.skip(1);
        assert forall|i: int| 0 <= i < rest.len() implies ports::is_white(#[trigger] rest[i]) by {
            assert(rest[i] == before[i + 1]);
        }
        lemma_start(rest, s);
        assert((before + s).skip(1) =~= rest + s);
    } else {
        assert(before + s =~= s);
    }
}

proof fn lemma_end(s: Seq<char>, after: Seq<char>)
    requires
        blank(after),
        s.len() > 0,
        !ports::is_white(s.last()),
    ensures
        ports::trimmed_end(s + after) == s,
    decreases after.len(),
{
    if after.len() > 0 {
        assert(ports::is_white(after[after.len() - 1]));
        let rest = after.drop_last();
        assert forall|i: int| 0 <= i < rest.len() implies ports::is_white(#[trigger] rest[i]) by {
            assert(rest[i] == after[i]);
        }
        lemma_end(s, rest);
        assert((s + after).drop_last() =~= s + rest);
    } else {
        assert(s + after =~= s);
    }
}

/// Pieces between separators are read back, one more with each separator.
pub proof fn law_pieces(s: Seq<char>, d: Seq<char>, sep: char)
    requires
        forall|i: int| 0 <= i < d.len() ==> #[trigger] d[i] != sep,
    ensures
        ports::pieces(d, sep) == seq![d],
        ports::pieces(s + seq![sep] + d, sep) == ports::pieces(s, sep).push(d),
{
    ports::lemma_piece(d, sep);
    ports::lemma_pieces_append(s, d, sep);
}

/// The host of a device is what is before its first `:/`; a device without one names no host.
pub proof fn law_host(name: Seq<char>, export: Seq<char>)
    ensures
        !text::occurs(name, seq![':', '/']) ==> rates::host(name + seq![':', '/'] + export) == Some(name),
        !text::occurs(name, seq![':', '/']) ==> rates::host(name) is None,
{
    let mark = seq![':', '/'];
    reveal_strlit(":/");
    assert(":/"@ =~= mark);
    let device = name + mark + export;
    if !text::occurs(name, mark) {
        let n = name.len() as int;
        assert(device.subrange(n, n + 2) =~= mark);
        assert(text::occurs_at(device, mark, n));
        assert forall|j: int| 0 <= j < n implies !text::occurs_at(device, mark, j) by {
            if text::occurs_at(device, mark, j) {
                assert(device.subrange(j, j + 2)[0] == ':' && device.subrange(j, j + 2)[1] == '/');
                assert(device[j] == ':' && device[j + 1] == '/');
                if j + 1 < n {
                    assert(name.subrange(j, j + 2) =~= mark);
                    assert(text::occurs_at(name, mark, j));
                } else {
                    assert(device[n] == ':');
                }
            }
        }
        assert(rates::splits_at(device, n));
        let k = choose|k: int| rates::splits_at(device, k);
        assert(rates::splits_at(device, k));
        if k < n {
            assert(!text::occurs_at(device, mark, k));
        } else if n < k {
            assert(text::occurs_at(device, mark, n));
        }
        assert(device.take(n) =~= name);
    }
}

/// Numerals of different numbers differ, and have no leading zero but for zero itself.
pub proof fn law_decimal_differs(a: nat, b: nat)
    ensures
        text::decimal(a) == text::decimal(b) ==> a == b,
        a > 0 ==> text::decimal(a)[0] != '0',
        text::decimal(0) == seq!['0'],
    decreases a,
{
    let max = if a < b {
        b
    } else {
        a
    };
    ports::law_decimal_read_back(a, max);
    ports::law_decimal_read_back(b, max);
    if a >= 10 {
        law_decimal_differs(a / 10, b);
        ports::lemma_decimal_digits(a / 10);
        assert(text::decimal(a)[0] == text::decimal(a / 10)[0]);
    }
}

/// A port is read with white space around it, and is too large past two bytes.
pub proof fn law_port(before: Seq<char>, n: nat, after: Seq<char>)
    requires
        blank(before),
        blank(after),
    ensures
        n <= 0xffff ==> ports::port_value(before + text::decimal(n) + after) == Ok::<nat, NumberFault>(n),
        n > 0xffff ==> ports::port_value(before + text::decimal(n) + after) == Err::<nat, NumberFault>(
            NumberFault::TooLarge,
        ),
        ports::port_value(before) == Err::<nat, NumberFault>(NumberFault::Empty),
{
    let d = text::decimal(n);
    ports::lemma_decimal_digits(n);
    assert(ports::is_digit(d[0]) && ports::is_digit(d[d.len() - 1]));
    law_trimmed(before, d, after);
    law_numerals(n, 0xffff);
}

} // verus!
