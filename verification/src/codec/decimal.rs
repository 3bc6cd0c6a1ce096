//! Unsigned decimal numerals: the written form of a key.

use vstd::prelude::*;

verus! {

/// The byte `0`.
pub const ZERO: u8 = 0x30;

/// Whether `b` is one of the bytes `0` to `9`.
pub open spec fn is_digit(b: u8) -> bool {
    ZERO <= b <= 0x39
}

/// The byte that writes the digit `d`.
pub open spec fn digit(d: nat) -> u8
    recommends
        d < 10,
{
    (ZERO + d) as u8
}

/// The numeral of `n`: its decimal digits, most significant first, with no
/// sign and no leading zero.
pub open spec fn decimal(n: nat) -> Seq<u8>
    decreases n,
{
    if n < 10 {
        seq![digit(n)]
    } else {
        decimal(n / 10).push(digit(n % 10))
    }
}

/// Reads the digits at the front of `s` as a continuation of the number
/// `read` so far. Gives the number read and how many digits were taken.
pub open spec fn scan_digits(s: Seq<u8>, read: nat) -> (nat, nat)
    decreases s.len(),
{
    if s.len() > 0 && is_digit(s[0]) {
        let (value, taken) = scan_digits(s.skip(1), read * 10 + (s[0] - ZERO) as nat);
        (value, taken + 1)
    } else {
        (read, 0)
    }
}

/// Reads the numeral at the front of `s`: the longest run of digits found
/// there. Gives the number and the length of the numeral, or `None` where
/// there is no digit, where the run has a leading zero, or where the number
/// does not fit in 64 bits.
pub open spec fn parse_decimal(s: Seq<u8>) -> Option<(u64, nat)> {
    let (value, taken) = scan_digits(s, 0);
    if taken == 0 || (taken > 1 && s[0] == ZERO) || value > u64::MAX {
        None
    } else {
        Some((value as u64, taken))
    }
}

/// Scanning never gives less than what was read before.
pub proof fn lemma_scan_grows(s: Seq<u8>, read: nat)
    ensures
        scan_digits(s, read).0 >= read,
        scan_digits(s, read).1 <= s.len(),
    decreases s.len(),
{
    if s.len() > 0 && is_digit(s[0]) {
        lemma_scan_grows(s.skip(1), read * 10 + (s[0] - ZERO) as nat);
    }
}

/// A numeral is a non-empty run of digits, and only the numeral of zero
/// starts with `0`.
pub proof fn lemma_decimal_shape(n: nat)
    ensures
        decimal(n).len() >= 1,
        forall|i: int| 0 <= i < decimal(n).len() ==> is_digit(#[trigger] decimal(n)[i]),
        n > 0 ==> decimal(n)[0] != ZERO,
        decimal(n).len() > 1 ==> n >= 10,
    decreases n,
{
    if n >= 10 {
        lemma_decimal_shape(n / 10);
    }
}

/// Scanning a numeral followed by anything gives what scanning the rest
/// gives when the numeral's number has been read.
pub proof fn lemma_scan_decimal(n: nat, rest: Seq<u8>)
    ensures
        scan_digits(decimal(n) + rest, 0) == (
            scan_digits(rest, n).0,
            scan_digits(rest, n).1 + decimal(n).len(),
        ),
    decreases n,
{
    if n < 10 {
        assert((decimal(n) + rest).skip(1) =~= rest);
    } else {
        let last = seq![digit(n % 10)];
        lemma_scan_decimal(n / 10, last + rest);
        assert(decimal(n) + rest =~= decimal(n / 10) + (last + rest));
        assert((last + rest).skip(1) =~= rest);
    }
}

/// Reading a written number gives the number back, whatever follows it, as
/// long as no digit follows.
pub proof fn lemma_parse_decimal_of_decimal(n: u64, rest: Seq<u8>)
    requires
        rest.len() == 0 || !is_digit(rest[0]),
    ensures
        parse_decimal(decimal(n as nat) + rest) == Some((n, decimal(n as nat).len())),
{
    lemma_scan_decimal(n as nat, rest);
    lemma_decimal_shape(n as nat);
}

/// What scanning takes, appended to the numeral of what was read before, is
/// the numeral of what scanning gives.
pub proof fn lemma_scan_writes_decimal(s: Seq<u8>, read: nat)
    requires
        read > 0,
    ensures
        decimal(read) + s.take(scan_digits(s, read).1 as int) == decimal(scan_digits(s, read).0),
    decreases s.len(),
{
    let (value, taken) = scan_digits(s, read);
    lemma_scan_grows(s, read);
    if s.len() > 0 && is_digit(s[0]) {
        let next = read * 10 + (s[0] - ZERO) as nat;
        lemma_scan_writes_decimal(s.skip(1), next);
        lemma_scan_grows(s.skip(1), next);
        assert(decimal(next) == decimal(read).push(s[0]));
        assert(decimal(read) + s.take(taken as int) =~= decimal(read).push(s[0]) + s.skip(1).take(
            taken - 1,
        ));
    } else {
        assert(decimal(read) + s.take(0) =~= decimal(read));
    }
}

/// What reading accepts is the written form of the number it gives.
pub proof fn lemma_decimal_of_parse_decimal(s: Seq<u8>)
    requires
        parse_decimal(s) is Some,
    ensures
        ({
            let (value, taken) = parse_decimal(s).unwrap();
            &&& 0 < taken <= s.len()
            &&& s.take(taken as int) == decimal(value as nat)
            &&& taken < s.len() ==> !is_digit(s[taken as int])
        }),
{
    let (value, taken) = parse_decimal(s).unwrap();
    lemma_scan_grows(s, 0);
    let first = (s[0] - ZERO) as nat;
    lemma_scan_grows(s.skip(1), first);
    lemma_scan_stops(s, 0);
    if first == 0 {
        assert(s.take(1) =~= decimal(0));
    } else {
        lemma_scan_writes_decimal(s.skip(1), first);
        assert(s.take(taken as int) =~= decimal(first) + s.skip(1).take(taken - 1));
    }
}

/// Scanning stops only in front of a byte that is no digit.
pub proof fn lemma_scan_stops(s: Seq<u8>, read: nat)
    ensures
        scan_digits(s, read).1 < s.len() ==> !is_digit(s[scan_digits(s, read).1 as int]),
    decreases s.len(),
{
    if s.len() > 0 && is_digit(s[0]) {
        lemma_scan_stops(s.skip(1), read * 10 + (s[0] - ZERO) as nat);
    }
}

/// Whether the numeral of `value` stands at the front of `s` and is followed
/// by no further digit.
pub open spec fn numeral_at_front(s: Seq<u8>, value: u64) -> bool {
    let numeral = decimal(value as nat);
    numeral.is_prefix_of(s) && (s.len() == numeral.len() || !is_digit(s[numeral.len() as int]))
}

/// Where reading finds no number, no numeral stands.
pub proof fn lemma_no_decimal(s: Seq<u8>)
    requires
        parse_decimal(s) is None,
    ensures
        forall|value: u64| !numeral_at_front(s, value),
{
    assert forall|value: u64| !numeral_at_front(s, value) by {
        if numeral_at_front(s, value) {
            let numeral = decimal(value as nat);
            let rest = s.skip(numeral.len() as int);
            assert(s =~= numeral + rest);
            lemma_parse_decimal_of_decimal(value, rest);
        }
    }
}

/// Appends the numeral of `value` to `out`.
pub fn write_decimal(out: &mut Vec<u8>, value: u64)
    ensures
        final(out)@ == old(out)@ + decimal(value as nat),
    decreases value,
{
    if value >= 10 {
        write_decimal(out, value / 10);
    }
    let last: u8 = (value % 10) as u8;
    out.push(ZERO + last);
    assert(out@ =~= old(out)@ + decimal(value as nat));
}

/// Reads the numeral that starts at `start`: the longest run of digits
/// there. Gives the number and the position just behind the numeral; gives
/// `None` where no numeral of a 64-bit number stands.
pub fn read_decimal(bytes: &[u8], start: usize) -> (r: Option<(u64, usize)>)
    requires
        start <= bytes.len(),
    ensures
        match r {
            Some((value, end)) => {
                &&& start < end <= bytes.len()
                &&& bytes@.subrange(start as int, end as int) == decimal(value as nat)
                &&& numeral_at_front(bytes@.skip(start as int), value)
                &&& parse_decimal(bytes@.skip(start as int)) == Some((value, (end - start) as nat))
            },
            None => {
                &&& forall|value: u64| !numeral_at_front(bytes@.skip(start as int), value)
                &&& parse_decimal(bytes@.skip(start as int)) is None
            },
        },
{
    let r = scan_decimal(bytes, start);
    proof {
        let whole = bytes@.skip(start as int);
        if parse_decimal(whole) is Some {
            lemma_decimal_of_parse_decimal(whole);
            let n = parse_decimal(whole).unwrap().1;
            assert(whole.take(n as int) =~= bytes@.subrange(start as int, start + n));
        } else {
            lemma_no_decimal(whole);
        }
    }
    r
}

/// Reads the run of digits that starts at `start` as a number.
fn scan_decimal(bytes: &[u8], start: usize) -> (r: Option<(u64, usize)>)
    requires
        start <= bytes.len(),
    ensures
        match r {
            Some((value, end)) => start < end <= bytes.len() && parse_decimal(
                bytes@.skip(start as int),
            ) == Some((value, (end - start) as nat)),
            None => parse_decimal(bytes@.skip(start as int)) is None,
        },
{
    let ghost whole = bytes@.skip(start as int);
    let mut at: usize = start;
    let mut read: u64 = 0;
    while at < bytes.len() && ZERO <= bytes[at] && bytes[at] <= 0x39
        invariant
            start <= at <= bytes.len(),
            whole == bytes@.skip(start as int),
            scan_digits(whole, 0).0 == scan_digits(bytes@.skip(at as int), read as nat).0,
            scan_digits(whole, 0).1 == scan_digits(bytes@.skip(at as int), read as nat).1 + (at
                - start),
        decreases bytes.len() - at,
    {
        let d: u64 = (bytes[at] - ZERO) as u64;
        proof {
            assert(bytes@.skip(at as int).skip(1) =~= bytes@.skip(at + 1));
            assert(bytes@.skip(at as int)[0] == bytes@[at as int]);
        }
        if read > (u64::MAX - d) / 10 {
            proof {
                lemma_scan_grows(bytes@.skip(at + 1), read as nat * 10 + d as nat);
            }
            return None;
        }
        read = read * 10 + d;
        at = at + 1;
    }
    proof {
        if at < bytes.len() {
            assert(bytes@.skip(at as int)[0] == bytes@[at as int]);
        }
        if start < bytes.len() {
            assert(whole[0] == bytes@[start as int]);
        }
    }
    if at == start {
        None
    } else if at - start > 1 && bytes[start] == ZERO {
        None
    } else {
        Some((read, at))
    }
}

} // verus!
