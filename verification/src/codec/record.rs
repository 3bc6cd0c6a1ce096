//! The written form of one operation.
//!
//! An insert is written as
//! `{"Insert":{"key":42,"value":{"text":"Buy milk","schedule":"2024-01-01 09:00:00"}}}`
//! and a tombstone as `{"Tombstone":{"key":42}}`, with nothing between the
//! parts shown and nothing around them.

use crate::codec::decimal::{
    decimal, is_digit, lemma_decimal_of_parse_decimal, lemma_parse_decimal_of_decimal,
    parse_decimal, read_decimal, write_decimal,
};
use crate::codec::literal::{read_literal, write_literal};
use crate::codec::quoted::{
    lemma_parse_quoted_of_quoted, lemma_quoted_of_parse_quoted, parse_quoted, quoted, read_quoted,
    write_quoted,
};
use crate::note::{Note, NoteView, Operation, OperationView};
use crate::time::Timestamp;
use std::string::FromUtf8Error;
use vstd::prelude::*;
use vstd::string::*;
use vstd::utf8::*;

verus! {

/// What opens an insert, up to its key.
pub const INSERT_HEAD: &'static str = "{\"Insert\":{\"key\":";

/// What stands between the key of an insert and its text.
pub const TEXT_HEAD: &'static str = ",\"value\":{\"text\":";

/// What stands between the text of an insert and its schedule.
pub const SCHEDULE_HEAD: &'static str = ",\"schedule\":";

/// What closes an insert.
pub const INSERT_TAIL: &'static str = "}}}";

/// What opens a tombstone, up to its key.
pub const TOMBSTONE_HEAD: &'static str = "{\"Tombstone\":{\"key\":";

/// What closes a tombstone.
pub const TOMBSTONE_TAIL: &'static str = "}}";

/// An operation can be written when its schedule can.
pub open spec fn storable(op: OperationView) -> bool {
    op matches OperationView::Insert { value, .. } ==> value.schedule.storable()
}

/// The written form of an insert of a note with this text under `key`, where
/// `schedule` is the written form of the note's schedule.
pub open spec fn insert_bytes(key: u64, text: Seq<char>, schedule: Seq<char>) -> Seq<u8> {
    INSERT_HEAD.spec_bytes() + decimal(key as nat) + TEXT_HEAD.spec_bytes() + quoted(
        encode_utf8(text),
    ) + SCHEDULE_HEAD.spec_bytes() + quoted(encode_utf8(schedule)) + INSERT_TAIL.spec_bytes()
}

/// The written form of a tombstone for `key`.
pub open spec fn tombstone_bytes(key: u64) -> Seq<u8> {
    TOMBSTONE_HEAD.spec_bytes() + decimal(key as nat) + TOMBSTONE_TAIL.spec_bytes()
}

/// The written form of an operation.
pub open spec fn record_bytes(op: OperationView) -> Seq<u8> {
    match op {
        OperationView::Insert { key, value } => insert_bytes(
            key,
            value.text,
            value.schedule.text(),
        ),
        OperationView::Tombstone { key } => tombstone_bytes(key),
    }
}

/// Whether the written form of some operation stands at the front of `bytes`.
pub open spec fn starts_with_record(bytes: Seq<u8>) -> bool {
    exists|op: OperationView| storable(op) && #[trigger] record_bytes(op).is_prefix_of(bytes)
}

/// The text that `bytes` encode, if they encode one.
spec fn text_of(bytes: Seq<u8>) -> Option<Seq<char>> {
    if valid_utf8(bytes) {
        Some(decode_utf8(bytes))
    } else {
        None
    }
}

/// Reads the note that the two strings of an insert stand for.
spec fn parse_note(text: Seq<u8>, schedule: Seq<u8>) -> Option<NoteView> {
    match (text_of(text), text_of(schedule)) {
        (Some(text), Some(schedule)) => match Timestamp::read(schedule) {
            Some(schedule) => Some(NoteView { text, schedule }),
            None => None,
        },
        _ => None,
    }
}

/// Moves a result that was read `n` bytes into the input to the front of it.
spec fn behind(n: nat, r: Option<(OperationView, nat)>) -> Option<(OperationView, nat)> {
    match r {
        Some((op, m)) => Some((op, n + m)),
        None => None,
    }
}

/// Reads the closing of an insert whose key and strings have been read.
#[verifier::opaque]
spec fn parse_insert_tail(key: u64, text: Seq<u8>, schedule: Seq<u8>, s: Seq<u8>) -> Option<
    (OperationView, nat),
> {
    let tail = INSERT_TAIL.spec_bytes();
    if tail.is_prefix_of(s) {
        match parse_note(text, schedule) {
            Some(value) => Some((OperationView::Insert { key, value }, tail.len())),
            None => None,
        }
    } else {
        None
    }
}

/// Reads an insert from its schedule on.
#[verifier::opaque]
spec fn parse_insert_schedule(key: u64, text: Seq<u8>, s: Seq<u8>) -> Option<
    (OperationView, nat),
> {
    let n = SCHEDULE_HEAD.spec_bytes().len();
    if SCHEDULE_HEAD.spec_bytes().is_prefix_of(s) {
        match parse_quoted(s.skip(n as int)) {
            Some((schedule, k)) => behind(
                n + k,
                parse_insert_tail(key, text, schedule, s.skip((n + k) as int)),
            ),
            None => None,
        }
    } else {
        None
    }
}

/// Reads an insert from its text on.
#[verifier::opaque]
spec fn parse_insert_text(key: u64, s: Seq<u8>) -> Option<(OperationView, nat)> {
    let n = TEXT_HEAD.spec_bytes().len();
    if TEXT_HEAD.spec_bytes().is_prefix_of(s) {
        match parse_quoted(s.skip(n as int)) {
            Some((text, k)) => behind(
                n + k,
                parse_insert_schedule(key, text, s.skip((n + k) as int)),
            ),
            None => None,
        }
    } else {
        None
    }
}

/// Reads an insert from what follows its opening. Gives the operation and
/// the length read.
#[verifier::opaque]
spec fn parse_insert(s: Seq<u8>) -> Option<(OperationView, nat)> {
    match parse_decimal(s) {
        Some((key, n)) => behind(n, parse_insert_text(key, s.skip(n as int))),
        None => None,
    }
}

/// Reads a tombstone from what follows its opening. Gives the operation and
/// the length read.
#[verifier::opaque]
spec fn parse_tombstone(s: Seq<u8>) -> Option<(OperationView, nat)> {
    match parse_decimal(s) {
        Some((key, n)) => if TOMBSTONE_TAIL.spec_bytes().is_prefix_of(s.skip(n as int)) {
            Some((OperationView::Tombstone { key }, n + TOMBSTONE_TAIL.spec_bytes().len()))
        } else {
            None
        },
        None => None,
    }
}

/// What reading finds at the front of `s`: the operation written there and
/// the length of its written form, or nothing. Reading goes part by part;
/// [`lemma_parse_record_of_record`] and [`lemma_record_of_parse_record`] say
/// what that comes to.
#[verifier::opaque]
pub closed spec fn parse_record(s: Seq<u8>) -> Option<(OperationView, nat)> {
    if INSERT_HEAD.spec_bytes().is_prefix_of(s) {
        let n = INSERT_HEAD.spec_bytes().len();
        behind(n, parse_insert(s.skip(n as int)))
    } else if TOMBSTONE_HEAD.spec_bytes().is_prefix_of(s) {
        let n = TOMBSTONE_HEAD.spec_bytes().len();
        behind(n, parse_tombstone(s.skip(n as int)))
    } else {
        None
    }
}

/// What the standard library's `String::from_utf8` is documented to do: it
/// succeeds exactly on well-formed UTF-8 and then gives the text that the
/// bytes encode.
pub assume_specification[ String::from_utf8 ](vec: Vec<u8>) -> (r: Result<String, FromUtf8Error>)
    ensures
        r is Ok <==> valid_utf8(vec@),
        r matches Ok(text) ==> text@ == decode_utf8(vec@),
;

/// The standard library's error for bytes that are no UTF-8.
#[verifier::external_type_specification]
#[verifier::external_body]
pub struct ExFromUtf8Error(FromUtf8Error);

/// The text that `bytes` encode.
fn read_text(bytes: Vec<u8>) -> (text: Option<String>)
    ensures
        text is Some <==> text_of(bytes@) is Some,
        text matches Some(t) ==> text_of(bytes@) == Some(t@),
{
    match String::from_utf8(bytes) {
        Ok(text) => Some(text),
        Err(_) => None,
    }
}

/// Reads the note that the two strings of an insert stand for.
fn read_note(text: Vec<u8>, schedule: Vec<u8>) -> (note: Option<Note>)
    ensures
        note is Some <==> parse_note(text@, schedule@) is Some,
        note matches Some(n) ==> parse_note(text@, schedule@) == Some(n@),
{
    let text = match read_text(text) {
        Some(text) => text,
        None => {
            return None;
        },
    };
    let schedule = match read_text(schedule) {
        Some(schedule) => schedule,
        None => {
            return None;
        },
    };
    match Timestamp::parse(schedule.as_str()) {
        Some(schedule) => Some(Note { text, schedule }),
        None => None,
    }
}

/// Skipping twice is skipping once by the sum.
proof fn lemma_skip_skip(s: Seq<u8>, a: int, b: int)
    requires
        0 <= a,
        0 <= b,
        a + b <= s.len(),
    ensures
        s.skip(a).skip(b) == s.skip(a + b),
{
    assert(s.skip(a).skip(b) =~= s.skip(a + b));
}

/// Whether `r`, read at `start`, is what `parsed` says stands there.
spec fn agrees(
    r: Option<(Operation, usize)>,
    start: usize,
    bytes: Seq<u8>,
    parsed: Option<(OperationView, nat)>,
) -> bool {
    match r {
        Some((op, end)) => start <= end <= bytes.len() && parsed == Some(
            (op@, (end - start) as nat),
        ),
        None => parsed is None,
    }
}

/// Reads the closing of an insert at `start`.
fn read_insert_tail(bytes: &[u8], start: usize, key: u64, text: Vec<u8>, schedule: Vec<u8>) -> (r:
    Option<(Operation, usize)>)
    requires
        start <= bytes.len(),
    ensures
        agrees(
            r,
            start,
            bytes@,
            parse_insert_tail(key, text@, schedule@, bytes@.skip(start as int)),
        ),
{
    reveal(parse_insert_tail);
    let end = match read_literal(bytes, start, INSERT_TAIL) {
        Some(end) => end,
        None => {
            return None;
        },
    };
    match read_note(text, schedule) {
        Some(value) => Some((Operation::Insert { key, value }, end)),
        None => None,
    }
}

/// Reads an insert from its schedule on, at `start`.
fn read_insert_schedule(bytes: &[u8], start: usize, key: u64, text: Vec<u8>) -> (r: Option<
    (Operation, usize),
>)
    requires
        start <= bytes.len(),
    ensures
        agrees(r, start, bytes@, parse_insert_schedule(key, text@, bytes@.skip(start as int))),
{
    reveal(parse_insert_schedule);
    let at = match read_literal(bytes, start, SCHEDULE_HEAD) {
        Some(end) => end,
        None => {
            return None;
        },
    };
    proof {
        lemma_skip_skip(bytes@, start as int, at - start);
    }
    let (schedule, next) = match read_quoted(bytes, at) {
        Some(found) => found,
        None => {
            return None;
        },
    };
    proof {
        lemma_skip_skip(bytes@, start as int, next - start);
    }
    read_insert_tail(bytes, next, key, text, schedule)
}

/// Reads an insert from its text on, at `start`.
fn read_insert_text(bytes: &[u8], start: usize, key: u64) -> (r: Option<(Operation, usize)>)
    requires
        start <= bytes.len(),
    ensures
        agrees(r, start, bytes@, parse_insert_text(key, bytes@.skip(start as int))),
{
    reveal(parse_insert_text);
    let at = match read_literal(bytes, start, TEXT_HEAD) {
        Some(end) => end,
        None => {
            return None;
        },
    };
    proof {
        lemma_skip_skip(bytes@, start as int, at - start);
    }
    let (text, next) = match read_quoted(bytes, at) {
        Some(found) => found,
        None => {
            return None;
        },
    };
    proof {
        lemma_skip_skip(bytes@, start as int, next - start);
    }
    read_insert_schedule(bytes, next, key, text)
}

/// Reads an insert from what follows its opening at `start`.
fn read_insert(bytes: &[u8], start: usize) -> (r: Option<(Operation, usize)>)
    requires
        start <= bytes.len(),
    ensures
        agrees(r, start, bytes@, parse_insert(bytes@.skip(start as int))),
{
    reveal(parse_insert);
    let (key, at) = match read_decimal(bytes, start) {
        Some(found) => found,
        None => {
            return None;
        },
    };
    proof {
        lemma_skip_skip(bytes@, start as int, at - start);
    }
    read_insert_text(bytes, at, key)
}

/// Reads a tombstone from what follows its opening at `start`.
fn read_tombstone(bytes: &[u8], start: usize) -> (r: Option<(Operation, usize)>)
    requires
        start <= bytes.len(),
    ensures
        agrees(r, start, bytes@, parse_tombstone(bytes@.skip(start as int))),
{
    reveal(parse_tombstone);
    let (key, at) = match read_decimal(bytes, start) {
        Some(found) => found,
        None => {
            return None;
        },
    };
    proof {
        lemma_skip_skip(bytes@, start as int, at - start);
    }
    match read_literal(bytes, at, TOMBSTONE_TAIL) {
        Some(end) => Some((Operation::Tombstone { key }, end)),
        None => None,
    }
}

/// Reads the operation written at `start`, or finds that none is.
pub(crate) fn read_record_at(bytes: &[u8], start: usize) -> (r: Option<(Operation, usize)>)
    requires
        start <= bytes.len(),
    ensures
        match r {
            Some((op, end)) => start <= end <= bytes.len() && parse_record(
                bytes@.skip(start as int),
            ) == Some((op@, (end - start) as nat)),
            None => parse_record(bytes@.skip(start as int)) is None,
        },
{
    reveal(parse_record);
    if let Some(at) = read_literal(bytes, start, INSERT_HEAD) {
        proof {
            lemma_skip_skip(bytes@, start as int, at - start);
        }
        read_insert(bytes, at)
    } else if let Some(at) = read_literal(bytes, start, TOMBSTONE_HEAD) {
        proof {
            lemma_skip_skip(bytes@, start as int, at - start);
        }
        read_tombstone(bytes, at)
    } else {
        None
    }
}

/// Reads the operation written at `start`. Gives the operation and the
/// position just behind its written form; gives `None` where no written
/// operation stands.
pub fn read_record(bytes: &[u8], start: usize) -> (r: Option<(Operation, usize)>)
    requires
        start <= bytes.len(),
    ensures
        match r {
            Some((op, end)) => {
                &&& start < end <= bytes.len()
                &&& storable(op@)
                &&& bytes@.subrange(start as int, end as int) == record_bytes(op@)
            },
            None => !starts_with_record(bytes@.skip(start as int)),
        },
{
    let r = read_record_at(bytes, start);
    proof {
        let whole = bytes@.skip(start as int);
        if parse_record(whole) is Some {
            lemma_record_of_parse_record(whole);
            let n = parse_record(whole).unwrap().1;
            assert(whole.take(n as int) =~= bytes@.subrange(start as int, start + n));
        } else {
            lemma_no_record(whole);
        }
    }
    r
}

/// Appends the written form of an insert of a note with this text under
/// `key`, where `schedule` is the written form of the note's schedule.
pub fn write_insert(out: &mut Vec<u8>, key: u64, text: &str, schedule: &str)
    ensures
        final(out)@ == old(out)@ + insert_bytes(key, text@, schedule@),
{
    write_literal(out, INSERT_HEAD);
    write_decimal(out, key);
    write_literal(out, TEXT_HEAD);
    write_quoted(out, text.as_bytes());
    write_literal(out, SCHEDULE_HEAD);
    write_quoted(out, schedule.as_bytes());
    write_literal(out, INSERT_TAIL);
    assert(out@ =~= old(out)@ + insert_bytes(key, text@, schedule@));
}

/// Appends the written form of a tombstone for `key`.
pub fn write_tombstone(out: &mut Vec<u8>, key: u64)
    ensures
        final(out)@ == old(out)@ + tombstone_bytes(key),
{
    write_literal(out, TOMBSTONE_HEAD);
    write_decimal(out, key);
    write_literal(out, TOMBSTONE_TAIL);
    assert(out@ =~= old(out)@ + tombstone_bytes(key));
}

/// Writes the operation, or `None` where it cannot be stored.
pub fn encode(op: &Operation) -> (written: Option<Vec<u8>>)
    ensures
        written is Some <==> storable(op@),
        written matches Some(bytes) ==> bytes@ == record_bytes(op@),
{
    let mut out: Vec<u8> = Vec::new();
    match op {
        Operation::Insert { key, value } => {
            match value.schedule.to_text() {
                Some(schedule) => {
                    write_insert(&mut out, *key, value.text.as_str(), schedule.as_str());
                },
                None => {
                    return None;
                },
            }
        },
        Operation::Tombstone { key } => {
            write_tombstone(&mut out, *key);
        },
    }
    assert(out@ =~= record_bytes(op@));
    Some(out)
}

/// The few facts about the fixed parts that reading relies on: the two
/// openings differ in their third byte, and what follows a key starts with no
/// digit.
pub proof fn lemma_frames()
    ensures
        INSERT_HEAD.spec_bytes().len() > 2,
        TOMBSTONE_HEAD.spec_bytes().len() > 2,
        INSERT_HEAD.spec_bytes()[2] != TOMBSTONE_HEAD.spec_bytes()[2],
        TEXT_HEAD.spec_bytes().len() > 0,
        !is_digit(TEXT_HEAD.spec_bytes()[0]),
        TOMBSTONE_TAIL.spec_bytes().len() > 0,
        !is_digit(TOMBSTONE_TAIL.spec_bytes()[0]),
{
    reveal_strlit("{\"Insert\":{\"key\":");
    reveal_strlit("{\"Tombstone\":{\"key\":");
    reveal_strlit(",\"value\":{\"text\":");
    reveal_strlit("}}");
    is_ascii_chars_encode_utf8(INSERT_HEAD@);
    is_ascii_chars_encode_utf8(TOMBSTONE_HEAD@);
    is_ascii_chars_encode_utf8(TEXT_HEAD@);
    is_ascii_chars_encode_utf8(TOMBSTONE_TAIL@);
}

/// A run of bytes is a prefix of itself followed by anything, and is what
/// taking its length gives; skipping its length gives what follows.
proof fn lemma_cut(a: Seq<u8>, b: Seq<u8>)
    ensures
        a.is_prefix_of(a + b),
        (a + b).take(a.len() as int) == a,
        (a + b).skip(a.len() as int) == b,
{
    assert((a + b).subrange(0, a.len() as int) =~= a);
    assert((a + b).skip(a.len() as int) =~= b);
}

/// Appending is associative.
proof fn lemma_assoc(a: Seq<u8>, b: Seq<u8>, c: Seq<u8>)
    ensures
        (a + b) + c == a + (b + c),
{
    assert((a + b) + c =~= a + (b + c));
}

/// Taking two lengths at once is taking the first and then the second.
proof fn lemma_take_split(s: Seq<u8>, a: int, b: int)
    requires
        0 <= a,
        0 <= b,
        a + b <= s.len(),
    ensures
        s.take(a + b) == s.take(a) + s.skip(a).take(b),
{
    assert(s.take(a + b) =~= s.take(a) + s.skip(a).take(b));
}

/// The written form of an insert from its schedule on.
spec fn schedule_part(value: NoteView) -> Seq<u8> {
    SCHEDULE_HEAD.spec_bytes() + (quoted(encode_utf8(value.schedule.text()))
        + INSERT_TAIL.spec_bytes())
}

/// The written form of an insert from its text on.
spec fn text_part(value: NoteView) -> Seq<u8> {
    TEXT_HEAD.spec_bytes() + (quoted(encode_utf8(value.text)) + schedule_part(value))
}

/// The written form of an insert behind its opening.
spec fn insert_part(key: u64, value: NoteView) -> Seq<u8> {
    decimal(key as nat) + text_part(value)
}

/// The written form of a tombstone behind its opening.
spec fn tombstone_part(key: u64) -> Seq<u8> {
    decimal(key as nat) + TOMBSTONE_TAIL.spec_bytes()
}

/// The written form of an operation is its opening followed by the rest.
proof fn lemma_record_parts(op: OperationView)
    ensures
        record_bytes(op) == match op {
            OperationView::Insert { key, value } => INSERT_HEAD.spec_bytes() + insert_part(
                key,
                value,
            ),
            OperationView::Tombstone { key } => TOMBSTONE_HEAD.spec_bytes() + tombstone_part(key),
        },
{
    match op {
        OperationView::Insert { key, value } => {
            assert(record_bytes(op) =~= INSERT_HEAD.spec_bytes() + insert_part(key, value));
        },
        OperationView::Tombstone { key } => {
            assert(record_bytes(op) =~= TOMBSTONE_HEAD.spec_bytes() + tombstone_part(key));
        },
    }
}

proof fn lemma_parse_insert_tail(key: u64, value: NoteView, rest: Seq<u8>)
    requires
        value.schedule.storable(),
    ensures
        parse_insert_tail(
            key,
            encode_utf8(value.text),
            encode_utf8(value.schedule.text()),
            INSERT_TAIL.spec_bytes() + rest,
        ) == Some((OperationView::Insert { key, value }, INSERT_TAIL.spec_bytes().len())),
{
    reveal(parse_insert_tail);
    lemma_cut(INSERT_TAIL.spec_bytes(), rest);
    encode_utf8_valid_utf8(value.text);
    encode_utf8_decode_utf8(value.text);
    encode_utf8_valid_utf8(value.schedule.text());
    encode_utf8_decode_utf8(value.schedule.text());
}

proof fn lemma_parse_insert_schedule(key: u64, value: NoteView, rest: Seq<u8>)
    requires
        value.schedule.storable(),
    ensures
        parse_insert_schedule(key, encode_utf8(value.text), schedule_part(value) + rest) == Some(
            (OperationView::Insert { key, value }, schedule_part(value).len()),
        ),
{
    reveal(parse_insert_schedule);
    let head = SCHEDULE_HEAD.spec_bytes();
    let written = quoted(encode_utf8(value.schedule.text()));
    let tail = INSERT_TAIL.spec_bytes();
    let s = schedule_part(value) + rest;
    lemma_assoc(head, written + tail, rest);
    lemma_assoc(written, tail, rest);
    assert(s == head + (written + (tail + rest)));
    lemma_cut(head, written + (tail + rest));
    lemma_parse_quoted_of_quoted(encode_utf8(value.schedule.text()), tail + rest);
    lemma_cut(written, tail + rest);
    lemma_skip_skip(s, head.len() as int, written.len() as int);
    lemma_parse_insert_tail(key, value, rest);
}

proof fn lemma_parse_insert_text(key: u64, value: NoteView, rest: Seq<u8>)
    requires
        value.schedule.storable(),
    ensures
        parse_insert_text(key, text_part(value) + rest) == Some(
            (OperationView::Insert { key, value }, text_part(value).len()),
        ),
{
    reveal(parse_insert_text);
    let head = TEXT_HEAD.spec_bytes();
    let written = quoted(encode_utf8(value.text));
    let tail = schedule_part(value);
    let s = text_part(value) + rest;
    lemma_assoc(head, written + tail, rest);
    lemma_assoc(written, tail, rest);
    assert(s == head + (written + (tail + rest)));
    lemma_cut(head, written + (tail + rest));
    lemma_parse_quoted_of_quoted(encode_utf8(value.text), tail + rest);
    lemma_cut(written, tail + rest);
    lemma_skip_skip(s, head.len() as int, written.len() as int);
    lemma_parse_insert_schedule(key, value, rest);
}

proof fn lemma_parse_insert(key: u64, value: NoteView, rest: Seq<u8>)
    requires
        value.schedule.storable(),
    ensures
        parse_insert(insert_part(key, value) + rest) == Some(
            (OperationView::Insert { key, value }, insert_part(key, value).len()),
        ),
{
    reveal(parse_insert);
    lemma_frames();
    let number = decimal(key as nat);
    let tail = text_part(value);
    lemma_assoc(number, tail, rest);
    assert((tail + rest)[0] == TEXT_HEAD.spec_bytes()[0]);
    lemma_parse_decimal_of_decimal(key, tail + rest);
    lemma_cut(number, tail + rest);
    lemma_parse_insert_text(key, value, rest);
}

proof fn lemma_parse_tombstone(key: u64, rest: Seq<u8>)
    ensures
        parse_tombstone(tombstone_part(key) + rest) == Some(
            (OperationView::Tombstone { key }, tombstone_part(key).len()),
        ),
{
    reveal(parse_tombstone);
    lemma_frames();
    let number = decimal(key as nat);
    let tail = TOMBSTONE_TAIL.spec_bytes();
    lemma_assoc(number, tail, rest);
    assert((tail + rest)[0] == tail[0]);
    lemma_parse_decimal_of_decimal(key, tail + rest);
    lemma_cut(number, tail + rest);
    lemma_cut(tail, rest);
}

/// Reading a written operation gives the operation back, whatever follows.
pub proof fn lemma_parse_record_of_record(op: OperationView, rest: Seq<u8>)
    requires
        storable(op),
    ensures
        parse_record(record_bytes(op) + rest) == Some((op, record_bytes(op).len())),
{
    reveal(parse_record);
    lemma_frames();
    lemma_record_parts(op);
    let s = record_bytes(op) + rest;
    match op {
        OperationView::Insert { key, value } => {
            let head = INSERT_HEAD.spec_bytes();
            lemma_assoc(head, insert_part(key, value), rest);
            lemma_cut(head, insert_part(key, value) + rest);
            lemma_parse_insert(key, value, rest);
        },
        OperationView::Tombstone { key } => {
            let head = TOMBSTONE_HEAD.spec_bytes();
            lemma_assoc(head, tombstone_part(key), rest);
            lemma_cut(head, tombstone_part(key) + rest);
            assert(s[2] == head[2]);
            if INSERT_HEAD.spec_bytes().is_prefix_of(s) {
                assert(s.subrange(0, INSERT_HEAD.spec_bytes().len() as int)[2] == s[2]);
            }
            lemma_parse_tombstone(key, rest);
        },
    }
}

/// What a stage of reading an insert gives: an insert under the key read
/// before, whose schedule can be stored.
spec fn reads_insert(r: Option<(OperationView, nat)>, key: u64) -> bool {
    r matches Some((OperationView::Insert { key: k, value }, _)) && k == key
        && value.schedule.storable()
}

/// The note of an insert.
spec fn value_of(r: Option<(OperationView, nat)>) -> NoteView {
    r.unwrap().0->Insert_value
}

proof fn lemma_insert_tail_read(key: u64, text: Seq<u8>, schedule: Seq<u8>, s: Seq<u8>)
    requires
        parse_insert_tail(key, text, schedule, s) is Some,
    ensures
        ({
            let r = parse_insert_tail(key, text, schedule, s);
            &&& reads_insert(r, key)
            &&& r.unwrap().1 <= s.len()
            &&& s.take(r.unwrap().1 as int) == INSERT_TAIL.spec_bytes()
            &&& encode_utf8(value_of(r).text) == text
            &&& encode_utf8(value_of(r).schedule.text()) == schedule
        }),
{
    reveal(parse_insert_tail);
    decode_utf8_encode_utf8(text);
    decode_utf8_encode_utf8(schedule);
}

proof fn lemma_insert_schedule_read(key: u64, text: Seq<u8>, s: Seq<u8>)
    requires
        parse_insert_schedule(key, text, s) is Some,
    ensures
        ({
            let r = parse_insert_schedule(key, text, s);
            &&& reads_insert(r, key)
            &&& r.unwrap().1 <= s.len()
            &&& s.take(r.unwrap().1 as int) == schedule_part(value_of(r))
            &&& encode_utf8(value_of(r).text) == text
        }),
{
    reveal(parse_insert_schedule);
    let n = SCHEDULE_HEAD.spec_bytes().len();
    let (schedule, k) = parse_quoted(s.skip(n as int)).unwrap();
    lemma_quoted_of_parse_quoted(s.skip(n as int));
    let rest = s.skip((n + k) as int);
    lemma_insert_tail_read(key, text, schedule, rest);
    let m = parse_insert_tail(key, text, schedule, rest).unwrap().1;
    lemma_skip_skip(s, n as int, k as int);
    lemma_take_split(s, n as int, (k + m) as int);
    lemma_take_split(s.skip(n as int), k as int, m as int);
}

proof fn lemma_insert_text_read(key: u64, s: Seq<u8>)
    requires
        parse_insert_text(key, s) is Some,
    ensures
        ({
            let r = parse_insert_text(key, s);
            &&& reads_insert(r, key)
            &&& r.unwrap().1 <= s.len()
            &&& s.take(r.unwrap().1 as int) == text_part(value_of(r))
        }),
{
    reveal(parse_insert_text);
    let n = TEXT_HEAD.spec_bytes().len();
    let (text, k) = parse_quoted(s.skip(n as int)).unwrap();
    lemma_quoted_of_parse_quoted(s.skip(n as int));
    let rest = s.skip((n + k) as int);
    lemma_insert_schedule_read(key, text, rest);
    let m = parse_insert_schedule(key, text, rest).unwrap().1;
    lemma_skip_skip(s, n as int, k as int);
    lemma_take_split(s, n as int, (k + m) as int);
    lemma_take_split(s.skip(n as int), k as int, m as int);
}

proof fn lemma_insert_read(s: Seq<u8>)
    requires
        parse_insert(s) is Some,
    ensures
        ({
            let r = parse_insert(s);
            let key = parse_decimal(s).unwrap().0;
            &&& reads_insert(r, key)
            &&& r.unwrap().1 <= s.len()
            &&& s.take(r.unwrap().1 as int) == insert_part(key, value_of(r))
        }),
{
    reveal(parse_insert);
    let (key, n) = parse_decimal(s).unwrap();
    lemma_decimal_of_parse_decimal(s);
    lemma_insert_text_read(key, s.skip(n as int));
    let m = parse_insert_text(key, s.skip(n as int)).unwrap().1;
    lemma_take_split(s, n as int, m as int);
}

proof fn lemma_tombstone_read(s: Seq<u8>)
    requires
        parse_tombstone(s) is Some,
    ensures
        ({
            let (op, n) = parse_tombstone(s).unwrap();
            let key = parse_decimal(s).unwrap().0;
            &&& op == OperationView::Tombstone { key }
            &&& n <= s.len()
            &&& s.take(n as int) == tombstone_part(key)
        }),
{
    reveal(parse_tombstone);
    let (key, n) = parse_decimal(s).unwrap();
    lemma_decimal_of_parse_decimal(s);
    lemma_take_split(s, n as int, TOMBSTONE_TAIL.spec_bytes().len() as int);
}

/// What reading accepts is the written form of the operation it gives, and
/// that operation can be stored.
pub proof fn lemma_record_of_parse_record(s: Seq<u8>)
    requires
        parse_record(s) is Some,
    ensures
        ({
            let (op, n) = parse_record(s).unwrap();
            &&& 0 < n <= s.len()
            &&& s.take(n as int) == record_bytes(op)
            &&& storable(op)
        }),
{
    reveal(parse_record);
    lemma_frames();
    let (op, n) = parse_record(s).unwrap();
    lemma_record_parts(op);
    if INSERT_HEAD.spec_bytes().is_prefix_of(s) {
        let head = INSERT_HEAD.spec_bytes().len();
        lemma_insert_read(s.skip(head as int));
        lemma_take_split(s, head as int, n - head);
    } else {
        let head = TOMBSTONE_HEAD.spec_bytes().len();
        lemma_tombstone_read(s.skip(head as int));
        lemma_take_split(s, head as int, n - head);
    }
}

/// Where reading finds no record, no written operation stands.
pub proof fn lemma_no_record(s: Seq<u8>)
    requires
        parse_record(s) is None,
    ensures
        !starts_with_record(s),
{
    if starts_with_record(s) {
        let op = choose|op: OperationView|
            storable(op) && #[trigger] record_bytes(op).is_prefix_of(s);
        let head = record_bytes(op);
        assert(s =~= head + s.skip(head.len() as int));
        lemma_parse_record_of_record(op, s.skip(head.len() as int));
    }
}

} // verus!
