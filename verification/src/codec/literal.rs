//! The fixed parts of a record: runs of ASCII text that frame its fields.

use vstd::prelude::*;
use vstd::string::*;

verus! {

/// Appends the bytes of `text` to `out`.
pub fn write_literal(out: &mut Vec<u8>, text: &str)
    ensures
        final(out)@ == old(out)@ + text.spec_bytes(),
{
    let ghost before = out@;
    let bytes = text.as_bytes();
    let mut at: usize = 0;
    while at < bytes.len()
        invariant
            at <= bytes.len(),
            bytes@ == text.spec_bytes(),
            out@ == before + bytes@.take(at as int),
        decreases bytes.len() - at,
    {
        out.push(bytes[at]);
        assert(out@ =~= before + bytes@.take(at + 1));
        at = at + 1;
    }
    assert(bytes@.take(at as int) =~= bytes@);
}

/// Tests whether the bytes of `text` stand at `start`. Gives the position
/// just behind them if they do.
pub fn read_literal(bytes: &[u8], start: usize, text: &str) -> (end: Option<usize>)
    requires
        start <= bytes.len(),
    ensures
        end is Some <==> text.spec_bytes().is_prefix_of(bytes@.skip(start as int)),
        end matches Some(end) ==> end == start + text.spec_bytes().len(),
{
    let expected = text.as_bytes();
    let ghost rest = bytes@.skip(start as int);
    if expected.len() > bytes.len() - start {
        return None;
    }
    let mut at: usize = 0;
    while at < expected.len()
        invariant
            at <= expected.len(),
            start + expected.len() <= bytes.len(),
            expected@ == text.spec_bytes(),
            rest == bytes@.skip(start as int),
            expected@.take(at as int) == rest.take(at as int),
        decreases expected.len() - at,
    {
        if bytes[start + at] != expected[at] {
            assert(rest[at as int] != expected@[at as int]);
            assert(rest.subrange(0, expected@.len() as int)[at as int] != expected@[at as int]);
            return None;
        }
        assert(rest[at as int] == expected@[at as int]);
        assert(expected@.take(at + 1) =~= expected@.take(at as int).push(expected@[at as int]));
        assert(rest.take(at + 1) =~= rest.take(at as int).push(rest[at as int]));
        at = at + 1;
    }
    assert(expected@.take(at as int) =~= expected@);
    Some(start + at)
}

} // verus!
