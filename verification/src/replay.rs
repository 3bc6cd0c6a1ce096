//! Replaying a log: folding its operations, first to last, into the notes
//! that are scheduled once all of them have been applied.

use crate::codec::stream::views;
use crate::note::{Note, NoteView, Operation, OperationView};
use std::collections::HashMap;
use vstd::prelude::*;

verus! {

/// What a collection of notes is: a map from each key in use to its note.
pub open spec fn note_views(notes: Map<u64, Note>) -> Map<u64, NoteView> {
    notes.map_values(|note: Note| note@)
}

/// The notes after one more operation: an insert puts its note under its
/// key, replacing what was there; a tombstone clears its key, if it was in
/// use.
pub open spec fn applied(notes: Map<u64, NoteView>, op: OperationView) -> Map<u64, NoteView> {
    match op {
        OperationView::Insert { key, value } => notes.insert(key, value),
        OperationView::Tombstone { key } => notes.remove(key),
    }
}

/// The notes that a log leaves: nothing for the empty log, else what its
/// last operation makes of what the operations before it leave.
pub open spec fn replayed(ops: Seq<OperationView>) -> Map<u64, NoteView>
    decreases ops.len(),
{
    if ops.len() == 0 {
        Map::empty()
    } else {
        applied(replayed(ops.drop_last()), ops.last())
    }
}

/// Applies one operation to the notes.
pub fn apply(notes: &mut HashMap<u64, Note>, op: Operation)
    ensures
        note_views(final(notes)@) == applied(note_views(old(notes)@), op@),
{
    match op {
        Operation::Insert { key, value } => {
            notes.insert(key, value);
            assert(note_views(notes@) =~= note_views(old(notes)@).insert(key, value@));
        },
        Operation::Tombstone { key } => {
            notes.remove(&key);
            assert(note_views(notes@) =~= note_views(old(notes)@).remove(key));
        },
    }
}

/// Replays a log from its first operation to its last.
pub fn replay(ops: Vec<Operation>) -> (notes: HashMap<u64, Note>)
    ensures
        note_views(notes@) == replayed(views(ops@)),
{
    let mut notes: HashMap<u64, Note> = HashMap::new();
    let ghost all = views(ops@);
    assert(note_views(notes@) =~= replayed(all.take(0)));
    for op in it: ops
        invariant
            all == views(it.seq()),
            note_views(notes@) == replayed(all.take(it.index())),
    {
        proof {
            let i = it.index();
            assert(all.take(i + 1).drop_last() =~= all.take(i));
            assert(all.take(i + 1).last() == op@);
        }
        apply(&mut notes, op);
    }
    assert(all.take(all.len() as int) =~= all);
    notes
}

} // verus!
