//! The written form of a whole log: its records one after the other, with
//! nothing between them.

use crate::codec::record::{
    lemma_no_record, lemma_parse_record_of_record, lemma_record_of_parse_record, parse_record,
    read_record_at, record_bytes, starts_with_record, storable,
};
use crate::error::ParseError;
use crate::note::{Operation, OperationView};
use vstd::prelude::*;

verus! {

/// What a run of operations is.
pub open spec fn views(ops: Seq<Operation>) -> Seq<OperationView> {
    ops.map_values(|op: Operation| op@)
}

/// Whether each of the operations can be stored.
pub open spec fn all_storable(ops: Seq<OperationView>) -> bool {
    forall|i: int| 0 <= i < ops.len() ==> storable(#[trigger] ops[i])
}

/// The written form of a log: the written forms of its operations in order.
pub open spec fn log_bytes(ops: Seq<OperationView>) -> Seq<u8>
    decreases ops.len(),
{
    if ops.len() == 0 {
        seq![]
    } else {
        log_bytes(ops.drop_last()) + record_bytes(ops.last())
    }
}

/// Whether `bytes` is the written form of the log `ops`.
pub open spec fn is_log_of(bytes: Seq<u8>, ops: Seq<OperationView>) -> bool {
    all_storable(ops) && log_bytes(ops) == bytes
}

/// Whether `bytes` is the written form of some log.
pub open spec fn is_log(bytes: Seq<u8>) -> bool {
    exists|ops: Seq<OperationView>| is_log_of(bytes, ops)
}

/// A result read behind the operations `done`, which took `at` bytes.
spec fn continued(
    done: Seq<OperationView>,
    at: nat,
    r: Result<Seq<OperationView>, nat>,
) -> Result<Seq<OperationView>, nat> {
    match r {
        Ok(more) => Ok(done + more),
        Err(offset) => Err(at + offset),
    }
}

/// Reads `s` record by record. Gives the operations read, or the offset of
/// the first thing that is no record.
spec fn parse_log(s: Seq<u8>) -> Result<Seq<OperationView>, nat>
    decreases s.len(),
{
    if s.len() == 0 {
        Ok(seq![])
    } else {
        match parse_record(s) {
            Some((op, n)) => if 0 < n <= s.len() {
                continued(seq![op], n, parse_log(s.skip(n as int)))
            } else {
                Err(0)
            },
            None => Err(0),
        }
    }
}

/// The written form of two logs, one after the other, is the written form of
/// the first followed by that of the second.
pub proof fn lemma_log_bytes_concat(a: Seq<OperationView>, b: Seq<OperationView>)
    ensures
        log_bytes(a + b) == log_bytes(a) + log_bytes(b),
    decreases b.len(),
{
    if b.len() == 0 {
        assert(a + b =~= a);
        assert(log_bytes(a) + log_bytes(b) =~= log_bytes(a));
    } else {
        lemma_log_bytes_concat(a, b.drop_last());
        assert((a + b).drop_last() =~= a + b.drop_last());
        assert(log_bytes(a + b) =~= log_bytes(a) + log_bytes(b));
    }
}

/// The written form of a single operation, as a log.
pub proof fn lemma_log_bytes_one(op: OperationView)
    ensures
        log_bytes(seq![op]) == record_bytes(op),
{
    let none = Seq::<OperationView>::empty();
    assert(seq![op].drop_last() =~= none);
    assert(log_bytes(none) =~= Seq::<u8>::empty());
    assert(seq![op].last() == op);
    assert(log_bytes(seq![op]) =~= record_bytes(op));
}

/// Reading a written log followed by more bytes gives the log back and
/// goes on with what follows.
proof fn lemma_parse_log_of_log(ops: Seq<OperationView>, rest: Seq<u8>)
    requires
        all_storable(ops),
    ensures
        parse_log(log_bytes(ops) + rest) == continued(ops, log_bytes(ops).len(), parse_log(rest)),
    decreases ops.len(),
{
    let s = log_bytes(ops) + rest;
    if ops.len() == 0 {
        assert(s =~= rest);
        match parse_log(rest) {
            Ok(more) => {
                assert(ops + more =~= more);
            },
            Err(_) => {},
        }
    } else {
        let first = ops[0];
        let others = ops.skip(1);
        let head = record_bytes(first);
        let tail = log_bytes(others) + rest;
        assert(ops =~= seq![first] + others);
        lemma_log_bytes_concat(seq![first], others);
        lemma_log_bytes_one(first);
        assert(s =~= head + tail);
        lemma_parse_record_of_record(first, tail);
        lemma_record_of_parse_record(s);
        assert(s.skip(head.len() as int) =~= tail);
        lemma_parse_log_of_log(others, rest);
        match parse_log(rest) {
            Ok(more) => {
                assert(seq![first] + (others + more) =~= ops + more);
            },
            Err(_) => {},
        }
    }
}

/// What reading gives is a log whose written form is what was read; where
/// reading stops early, what stands before the offset is a written log and
/// no record stands at the offset.
proof fn lemma_log_of_parse_log(s: Seq<u8>)
    ensures
        match parse_log(s) {
            Ok(ops) => is_log_of(s, ops),
            Err(offset) => offset < s.len() && is_log(s.take(offset as int)) && parse_record(
                s.skip(offset as int),
            ) is None,
        },
    decreases s.len(),
{
    if s.len() == 0 {
        let none = Seq::<OperationView>::empty();
        assert(log_bytes(none) =~= s);
        assert(is_log_of(s, none));
    } else {
        match parse_record(s) {
            Some((op, n)) => {
                lemma_record_of_parse_record(s);
                let rest = s.skip(n as int);
                lemma_log_of_parse_log(rest);
                lemma_log_bytes_one(op);
                match parse_log(rest) {
                    Ok(ops) => {
                        lemma_log_bytes_concat(seq![op], ops);
                        assert(s =~= s.take(n as int) + rest);
                    },
                    Err(offset) => {
                        let before = choose|ops: Seq<OperationView>|
                            is_log_of(rest.take(offset as int), ops);
                        lemma_log_bytes_concat(seq![op], before);
                        let end = (n + offset) as int;
                        assert(s.take(end) =~= s.take(n as int) + rest.take(offset as int));
                        assert(is_log_of(s.take(end), seq![op] + before));
                        assert(rest.skip(offset as int) =~= s.skip(end));
                    },
                }
            },
            None => {
                let none = Seq::<OperationView>::empty();
                assert(log_bytes(none) =~= s.take(0));
                assert(is_log_of(s.take(0), none));
                assert(s.skip(0) =~= s);
            },
        }
    }
}

/// A written log is exactly what reading accepts in full.
proof fn lemma_is_log_iff_parses(s: Seq<u8>)
    ensures
        is_log(s) <==> parse_log(s) is Ok,
        forall|ops: Seq<OperationView>| is_log_of(s, ops) ==> parse_log(s) == Ok::<_, nat>(ops),
{
    lemma_log_of_parse_log(s);
    assert forall|ops: Seq<OperationView>| is_log_of(s, ops) implies parse_log(s) == Ok::<_, nat>(
        ops,
    ) by {
        let none = Seq::<u8>::empty();
        lemma_parse_log_of_log(ops, none);
        assert(log_bytes(ops) + none =~= s);
        assert(ops + Seq::<OperationView>::empty() =~= ops);
    }
}

/// A log has one written form, and a written form is that of one log only.
pub proof fn law_written_log_is_read_back(
    bytes: Seq<u8>,
    a: Seq<OperationView>,
    b: Seq<OperationView>,
)
    requires
        is_log_of(bytes, a),
        is_log_of(bytes, b),
    ensures
        a == b,
{
    lemma_is_log_iff_parses(bytes);
}

/// Appending the written form of an operation to a written log gives the
/// written form of the log with that operation at its end.
pub proof fn law_appending_extends_the_log(
    bytes: Seq<u8>,
    ops: Seq<OperationView>,
    op: OperationView,
)
    requires
        is_log_of(bytes, ops),
        storable(op),
    ensures
        is_log_of(bytes + record_bytes(op), ops.push(op)),
{
    assert(ops.push(op).drop_last() =~= ops);
}

/// What follows a written log decides whether the whole is one: a written
/// log followed by bytes that are no written log is no written log, and
/// followed by a written log it is one.
pub proof fn law_damage_is_never_hidden(log: Seq<u8>, more: Seq<u8>)
    requires
        is_log(log),
    ensures
        is_log(log + more) <==> is_log(more),
{
    let ops = choose|ops: Seq<OperationView>| is_log_of(log, ops);
    lemma_parse_log_of_log(ops, more);
    lemma_is_log_iff_parses(log + more);
    lemma_is_log_iff_parses(more);
}

/// Reads a whole log. Succeeds exactly on the written form of a log and
/// then gives that log; otherwise reports where the first thing that is no
/// record starts.
pub fn decode_stream(bytes: &[u8]) -> (r: Result<Vec<Operation>, ParseError>)
    ensures
        match r {
            Ok(ops) => is_log_of(bytes@, views(ops@)),
            Err(e) => {
                &&& !is_log(bytes@)
                &&& e.offset < bytes.len()
                &&& is_log(bytes@.take(e.offset as int))
                &&& !starts_with_record(bytes@.skip(e.offset as int))
            },
        },
{
    let mut ops: Vec<Operation> = Vec::new();
    let mut at: usize = 0;
    proof {
        assert(bytes@.skip(0) =~= bytes@);
        match parse_log(bytes@) {
            Ok(more) => {
                assert(views(ops@) + more =~= more);
            },
            Err(_) => {},
        }
    }
    while at < bytes.len()
        invariant
            at <= bytes.len(),
            parse_log(bytes@) == continued(
                views(ops@),
                at as nat,
                parse_log(bytes@.skip(at as int)),
            ),
        decreases bytes.len() - at,
    {
        let ghost here = bytes@.skip(at as int);
        match read_record_at(bytes, at) {
            Some((op, next)) => {
                proof {
                    lemma_record_of_parse_record(here);
                    assert(here.skip(next - at) =~= bytes@.skip(next as int));
                    let done = views(ops@);
                    assert(views(ops@.push(op)) =~= done.push(op@));
                    match parse_log(bytes@.skip(next as int)) {
                        Ok(more) => {
                            assert(done + (seq![op@] + more) =~= done.push(op@) + more);
                        },
                        Err(_) => {},
                    }
                }
                ops.push(op);
                at = next;
            },
            None => {
                proof {
                    lemma_log_of_parse_log(bytes@);
                    lemma_no_record(here);
                    lemma_is_log_iff_parses(bytes@);
                }
                return Err(ParseError { offset: at });
            },
        }
    }
    proof {
        assert(views(ops@) + Seq::<OperationView>::empty() =~= views(ops@));
        lemma_log_of_parse_log(bytes@);
    }
    Ok(ops)
}

} // verus!
