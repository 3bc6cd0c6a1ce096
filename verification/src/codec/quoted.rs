//! Quoted strings: the written form of a note's text and of its schedule.
//!
//! A string is written between two quotation marks. Inside them a quotation
//! mark, a backslash and every control byte is written as an escape that
//! starts with a backslash; every other byte stands for itself. Each string
//! has exactly one written form, and only that form is read back.

use vstd::prelude::*;

verus! {

/// The byte `"`.
pub const QUOTE: u8 = 0x22;

/// The byte `\`.
pub const BACKSLASH: u8 = 0x5c;

/// The first byte that is no control byte.
pub const SPACE: u8 = 0x20;

/// The byte that writes the hexadecimal digit `d` in lower case.
pub open spec fn hex_digit(d: nat) -> u8
    recommends
        d < 16,
{
    if d < 10 {
        (0x30 + d) as u8
    } else {
        (0x61 + d - 10) as u8
    }
}

/// The letter that follows the backslash in the two-byte escape of `b`, or
/// zero where `b` has no two-byte escape.
pub open spec fn short_escape(b: u8) -> u8 {
    if b == QUOTE {
        QUOTE
    } else if b == BACKSLASH {
        BACKSLASH
    } else if b == 0x08 {
        0x62
    } else if b == 0x09 {
        0x74
    } else if b == 0x0a {
        0x6e
    } else if b == 0x0c {
        0x66
    } else if b == 0x0d {
        0x72
    } else {
        0
    }
}

/// The written form of one byte inside a string.
pub open spec fn escape(b: u8) -> Seq<u8> {
    if short_escape(b) != 0 {
        seq![BACKSLASH, short_escape(b)]
    } else if b < SPACE {
        seq![BACKSLASH, 0x75, 0x30, 0x30, hex_digit((b / 16) as nat), hex_digit((b % 16) as nat)]
    } else {
        seq![b]
    }
}

/// The written form of a run of bytes inside a string.
pub open spec fn escaped(s: Seq<u8>) -> Seq<u8>
    decreases s.len(),
{
    if s.len() == 0 {
        seq![]
    } else {
        escape(s[0]) + escaped(s.skip(1))
    }
}

/// The written form of the string `s`.
pub open spec fn quoted(s: Seq<u8>) -> Seq<u8> {
    seq![QUOTE] + escaped(s) + seq![QUOTE]
}

/// The byte whose two-byte escape ends in `letter`, if there is one.
pub open spec fn short_unescape(letter: u8) -> Option<u8> {
    if letter == QUOTE {
        Some(QUOTE)
    } else if letter == BACKSLASH {
        Some(BACKSLASH)
    } else if letter == 0x62 {
        Some(0x08u8)
    } else if letter == 0x74 {
        Some(0x09u8)
    } else if letter == 0x6e {
        Some(0x0au8)
    } else if letter == 0x66 {
        Some(0x0cu8)
    } else if letter == 0x72 {
        Some(0x0du8)
    } else {
        None
    }
}

/// The value of the lower-case hexadecimal digit `b`, if it is one.
pub open spec fn hex_value(b: u8) -> Option<u8> {
    if 0x30 <= b <= 0x39 {
        Some((b - 0x30) as u8)
    } else if 0x61 <= b <= 0x66 {
        Some((b - 0x61 + 10) as u8)
    } else {
        None
    }
}

/// The control byte written by the six-byte escape at the front of `s`, if
/// one stands there.
pub open spec fn long_unescape(s: Seq<u8>) -> Option<u8> {
    if s.len() >= 6 && s[1] == 0x75 && s[2] == 0x30 && s[3] == 0x30 && (s[4] == 0x30 || s[4]
        == 0x31) && hex_value(s[5]) is Some {
        let b = ((s[4] - 0x30) * 16 + hex_value(s[5]).unwrap()) as u8;
        if short_escape(b) == 0 {
            Some(b)
        } else {
            None
        }
    } else {
        None
    }
}

/// Reads the written form of one byte at the front of `s`. Gives the byte
/// and the length of its written form.
pub open spec fn unescape(s: Seq<u8>) -> Option<(u8, nat)> {
    if s.len() == 0 {
        None
    } else if s[0] == BACKSLASH {
        if s.len() >= 2 && short_unescape(s[1]) is Some {
            Some((short_unescape(s[1]).unwrap(), 2))
        } else if long_unescape(s) is Some {
            Some((long_unescape(s).unwrap(), 6))
        } else {
            None
        }
    } else if s[0] < SPACE || s[0] == QUOTE {
        None
    } else {
        Some((s[0], 1))
    }
}

/// Reads the inside of a string up to its closing quotation mark. Gives the
/// bytes of the string and the length read, the closing mark included.
pub open spec fn parse_escaped(s: Seq<u8>) -> Option<(Seq<u8>, nat)>
    decreases s.len(),
{
    if s.len() == 0 {
        None
    } else if s[0] == QUOTE {
        Some((seq![], 1))
    } else {
        match unescape(s) {
            Some((b, n)) => match parse_escaped(s.skip(n as int)) {
                Some((rest, m)) => Some((seq![b] + rest, n + m)),
                None => None,
            },
            None => None,
        }
    }
}

/// Reads the string written at the front of `s`. Gives the bytes of the
/// string and the length of its written form.
pub open spec fn parse_quoted(s: Seq<u8>) -> Option<(Seq<u8>, nat)> {
    if s.len() > 0 && s[0] == QUOTE {
        match parse_escaped(s.skip(1)) {
            Some((content, n)) => Some((content, n + 1)),
            None => None,
        }
    } else {
        None
    }
}

/// Reading the written form of a byte gives the byte back, whatever follows,
/// and no written form starts with a quotation mark.
pub proof fn lemma_unescape_of_escape(b: u8, rest: Seq<u8>)
    ensures
        unescape(escape(b) + rest) == Some((b, escape(b).len())),
        (escape(b) + rest)[0] != QUOTE,
        (escape(b) + rest).skip(escape(b).len() as int) == rest,
{
    let s = escape(b) + rest;
    assert(s.skip(escape(b).len() as int) =~= rest);
    if short_escape(b) != 0 {
        assert(s[1] == short_escape(b));
    } else if b < SPACE {
        assert(s[1] == 0x75 && s[2] == 0x30 && s[3] == 0x30);
        assert(s[4] == hex_digit((b / 16) as nat));
        assert(s[5] == hex_digit((b % 16) as nat));
    } else {
        assert(s[0] == b);
    }
}

/// What reading one byte accepts is the written form of the byte it gives.
pub proof fn lemma_escape_of_unescape(s: Seq<u8>)
    requires
        unescape(s) is Some,
    ensures
        ({
            let (b, n) = unescape(s).unwrap();
            &&& 0 < n <= s.len()
            &&& s.take(n as int) == escape(b)
        }),
{
    let (b, n) = unescape(s).unwrap();
    assert(s.take(n as int) =~= escape(b));
}

/// Reading a written string gives the string back, whatever follows it.
pub proof fn lemma_parse_escaped_of_escaped(content: Seq<u8>, rest: Seq<u8>)
    ensures
        parse_escaped(escaped(content) + seq![QUOTE] + rest) == Some(
            (content, escaped(content).len() + 1),
        ),
    decreases content.len(),
{
    let s = escaped(content) + seq![QUOTE] + rest;
    if content.len() == 0 {
        assert(s[0] == QUOTE);
    } else {
        let tail = escaped(content.skip(1)) + seq![QUOTE] + rest;
        lemma_unescape_of_escape(content[0], tail);
        lemma_parse_escaped_of_escaped(content.skip(1), rest);
        assert(s =~= escape(content[0]) + tail);
        assert(seq![content[0]] + content.skip(1) =~= content);
    }
}

/// Reading a written string gives the string back, whatever follows it.
pub proof fn lemma_parse_quoted_of_quoted(content: Seq<u8>, rest: Seq<u8>)
    ensures
        parse_quoted(quoted(content) + rest) == Some((content, quoted(content).len())),
{
    let s = quoted(content) + rest;
    lemma_parse_escaped_of_escaped(content, rest);
    assert(s.skip(1) =~= escaped(content) + seq![QUOTE] + rest);
}

/// What reading the inside of a string accepts is the written form of the
/// string it gives, closed by a quotation mark.
pub proof fn lemma_escaped_of_parse_escaped(s: Seq<u8>)
    requires
        parse_escaped(s) is Some,
    ensures
        ({
            let (content, n) = parse_escaped(s).unwrap();
            &&& 0 < n <= s.len()
            &&& s.take(n as int) == escaped(content) + seq![QUOTE]
        }),
    decreases s.len(),
{
    let (content, n) = parse_escaped(s).unwrap();
    if s[0] == QUOTE {
        assert(s.take(1) =~= escaped(content) + seq![QUOTE]);
    } else {
        let (b, k) = unescape(s).unwrap();
        lemma_escape_of_unescape(s);
        lemma_escaped_of_parse_escaped(s.skip(k as int));
        let (rest, m) = parse_escaped(s.skip(k as int)).unwrap();
        assert(content.skip(1) =~= rest);
        assert(s.take(n as int) =~= s.take(k as int) + s.skip(k as int).take(m as int));
        assert(escaped(content) + seq![QUOTE] =~= escape(b) + (escaped(rest) + seq![QUOTE]));
    }
}

/// What reading a string accepts is the written form of the string it gives.
pub proof fn lemma_quoted_of_parse_quoted(s: Seq<u8>)
    requires
        parse_quoted(s) is Some,
    ensures
        ({
            let (content, n) = parse_quoted(s).unwrap();
            &&& 0 < n <= s.len()
            &&& s.take(n as int) == quoted(content)
        }),
{
    let (content, n) = parse_quoted(s).unwrap();
    lemma_escaped_of_parse_escaped(s.skip(1));
    assert(s.take(n as int) =~= seq![QUOTE] + s.skip(1).take(n - 1));
}

/// The written form of two runs of bytes, one after the other, is the
/// written form of the first followed by that of the second.
pub proof fn lemma_escaped_concat(a: Seq<u8>, b: Seq<u8>)
    ensures
        escaped(a + b) == escaped(a) + escaped(b),
    decreases a.len(),
{
    if a.len() == 0 {
        assert(a + b =~= b);
        assert(escaped(a) + escaped(b) =~= escaped(b));
    } else {
        lemma_escaped_concat(a.skip(1), b);
        assert((a + b).skip(1) =~= a.skip(1) + b);
        assert(escaped(a + b) =~= escaped(a) + escaped(b));
    }
}

/// The byte that writes the hexadecimal digit `d`.
fn hex_digit_byte(d: u8) -> (b: u8)
    requires
        d < 16,
    ensures
        b == hex_digit(d as nat),
{
    if d < 10 {
        0x30 + d
    } else {
        0x61 + (d - 10)
    }
}

/// Appends the written form of the byte `b` to `out`.
fn write_escape(out: &mut Vec<u8>, b: u8)
    ensures
        final(out)@ == old(out)@ + escape(b),
{
    let letter: u8 = if b == QUOTE {
        QUOTE
    } else if b == BACKSLASH {
        BACKSLASH
    } else if b == 0x08 {
        0x62
    } else if b == 0x09 {
        0x74
    } else if b == 0x0a {
        0x6e
    } else if b == 0x0c {
        0x66
    } else if b == 0x0d {
        0x72
    } else {
        0
    };
    if letter != 0 {
        out.push(BACKSLASH);
        out.push(letter);
    } else if b < SPACE {
        out.push(BACKSLASH);
        out.push(0x75);
        out.push(0x30);
        out.push(0x30);
        out.push(hex_digit_byte(b / 16));
        out.push(hex_digit_byte(b % 16));
    } else {
        out.push(b);
    }
    assert(out@ =~= old(out)@ + escape(b));
}

/// Appends the written form of the string `s` to `out`.
pub fn write_quoted(out: &mut Vec<u8>, s: &[u8])
    ensures
        final(out)@ == old(out)@ + quoted(s@),
{
    let ghost before = out@;
    out.push(QUOTE);
    let mut at: usize = 0;
    while at < s.len()
        invariant
            at <= s.len(),
            out@ == before + seq![QUOTE] + escaped(s@.take(at as int)),
        decreases s.len() - at,
    {
        write_escape(out, s[at]);
        proof {
            let one = seq![s@[at as int]];
            lemma_escaped_concat(s@.take(at as int), one);
            assert(s@.take(at + 1) =~= s@.take(at as int) + one);
            assert(escaped(one.skip(1)) =~= Seq::<u8>::empty());
            assert(escaped(one) =~= escape(s@[at as int]));
            assert(out@ =~= before + seq![QUOTE] + escaped(s@.take(at + 1)));
        }
        at = at + 1;
    }
    out.push(QUOTE);
    proof {
        assert(s@.take(at as int) =~= s@);
        assert(out@ =~= before + quoted(s@));
    }
}

/// The value of the lower-case hexadecimal digit `b`.
fn hex_value_of(b: u8) -> (v: Option<u8>)
    ensures
        v == hex_value(b),
{
    if 0x30 <= b && b <= 0x39 {
        Some(b - 0x30)
    } else if 0x61 <= b && b <= 0x66 {
        Some(b - 0x61 + 10)
    } else {
        None
    }
}

/// The byte whose two-byte escape ends in `letter`.
fn short_unescape_of(letter: u8) -> (b: Option<u8>)
    ensures
        b == short_unescape(letter),
{
    if letter == QUOTE {
        Some(QUOTE)
    } else if letter == BACKSLASH {
        Some(BACKSLASH)
    } else if letter == 0x62 {
        Some(0x08)
    } else if letter == 0x74 {
        Some(0x09)
    } else if letter == 0x6e {
        Some(0x0a)
    } else if letter == 0x66 {
        Some(0x0c)
    } else if letter == 0x72 {
        Some(0x0d)
    } else {
        None
    }
}

/// Reads the written form of one byte at `at`. Gives the byte and the
/// position just behind its written form.
fn read_escape(bytes: &[u8], at: usize) -> (r: Option<(u8, usize)>)
    requires
        at < bytes.len(),
    ensures
        match r {
            Some((b, next)) => at < next <= bytes.len() && unescape(bytes@.skip(at as int))
                == Some((b, (next - at) as nat)),
            None => unescape(bytes@.skip(at as int)) is None,
        },
{
    let ghost s = bytes@.skip(at as int);
    let first = bytes[at];
    assert(s[0] == first);
    if first != BACKSLASH {
        if first < SPACE || first == QUOTE {
            return None;
        }
        return Some((first, at + 1));
    }
    if bytes.len() - at < 2 {
        return None;
    }
    assert(s[1] == bytes@[at + 1]);
    if let Some(b) = short_unescape_of(bytes[at + 1]) {
        return Some((b, at + 2));
    }
    if bytes.len() - at < 6 {
        return None;
    }
    assert(s[2] == bytes@[at + 2] && s[3] == bytes@[at + 3] && s[4] == bytes@[at + 4] && s[5]
        == bytes@[at + 5]);
    let high = bytes[at + 4];
    if bytes[at + 1] != 0x75 || bytes[at + 2] != 0x30 || bytes[at + 3] != 0x30 || (high != 0x30
        && high != 0x31) {
        return None;
    }
    match hex_value_of(bytes[at + 5]) {
        Some(low) => {
            let b: u8 = (high - 0x30) * 16 + low;
            if b == 0x08 || b == 0x09 || b == 0x0a || b == 0x0c || b == 0x0d {
                None
            } else {
                Some((b, at + 6))
            }
        },
        None => None,
    }
}

/// Where reading finds no string, no written string stands.
pub proof fn lemma_no_quoted(s: Seq<u8>)
    requires
        parse_quoted(s) is None,
    ensures
        forall|content: Seq<u8>| !(#[trigger] quoted(content)).is_prefix_of(s),
{
    assert forall|content: Seq<u8>| !(#[trigger] quoted(content)).is_prefix_of(s) by {
        if quoted(content).is_prefix_of(s) {
            let rest = s.skip(quoted(content).len() as int);
            assert(s =~= quoted(content) + rest);
            lemma_parse_quoted_of_quoted(content, rest);
        }
    }
}

/// Reads the string written at `start`. Gives the bytes of the string and
/// the position just behind its closing quotation mark; gives `None` where
/// no written string stands.
pub fn read_quoted(bytes: &[u8], start: usize) -> (r: Option<(Vec<u8>, usize)>)
    requires
        start <= bytes.len(),
    ensures
        match r {
            Some((content, end)) => {
                &&& start < end <= bytes.len()
                &&& bytes@.subrange(start as int, end as int) == quoted(content@)
                &&& parse_quoted(bytes@.skip(start as int)) == Some(
                    (content@, (end - start) as nat),
                )
            },
            None => {
                &&& forall|content: Seq<u8>|
                    !(#[trigger] quoted(content)).is_prefix_of(bytes@.skip(start as int))
                &&& parse_quoted(bytes@.skip(start as int)) is None
            },
        },
{
    let r = scan_quoted(bytes, start);
    proof {
        let whole = bytes@.skip(start as int);
        if parse_quoted(whole) is Some {
            lemma_quoted_of_parse_quoted(whole);
            let n = parse_quoted(whole).unwrap().1;
            assert(whole.take(n as int) =~= bytes@.subrange(start as int, start + n));
        } else {
            lemma_no_quoted(whole);
        }
    }
    r
}

/// Reads the string written at `start`, escape by escape.
fn scan_quoted(bytes: &[u8], start: usize) -> (r: Option<(Vec<u8>, usize)>)
    requires
        start <= bytes.len(),
    ensures
        match r {
            Some((content, end)) => start < end <= bytes.len() && parse_quoted(
                bytes@.skip(start as int),
            ) == Some((content@, (end - start) as nat)),
            None => parse_quoted(bytes@.skip(start as int)) is None,
        },
{
    if start >= bytes.len() || bytes[start] != QUOTE {
        return None;
    }
    let ghost inside = bytes@.skip(start + 1);
    assert(bytes@.skip(start as int).skip(1) =~= inside);
    let mut content: Vec<u8> = Vec::new();
    let mut at: usize = start + 1;
    while at < bytes.len()
        invariant
            start < at <= bytes.len(),
            inside == bytes@.skip(start + 1),
            parse_quoted(bytes@.skip(start as int)) == match parse_escaped(inside) {
                Some((all, n)) => Some((all, n + 1)),
                None => None,
            },
            match parse_escaped(bytes@.skip(at as int)) {
                Some((rest, m)) => parse_escaped(inside) == Some(
                    (content@ + rest, (m + (at - (start + 1))) as nat),
                ),
                None => parse_escaped(inside) is None,
            },
        decreases bytes.len() - at,
    {
        let ghost here = bytes@.skip(at as int);
        assert(here[0] == bytes@[at as int]);
        if bytes[at] == QUOTE {
            assert(content@ + Seq::<u8>::empty() =~= content@);
            return Some((content, at + 1));
        }
        match read_escape(bytes, at) {
            Some((b, next)) => {
                proof {
                    assert(here.skip(next - at) =~= bytes@.skip(next as int));
                    match parse_escaped(bytes@.skip(next as int)) {
                        Some((rest, m)) => {
                            assert(content@ + (seq![b] + rest) =~= content@.push(b) + rest);
                        },
                        None => {},
                    }
                }
                content.push(b);
                at = next;
            },
            None => {
                return None;
            },
        }
    }
    None
}

} // verus!
