//! The note store: what a log holds once it is loaded, the record that adds a
//! note to it, and the pass that finds the notes that have fallen due.

use crate::codec::record::{
    record_bytes, starts_with_record, storable, write_insert, write_tombstone,
};
use crate::codec::stream::{
    decode_stream, is_log, is_log_of, law_appending_extends_the_log, law_damage_is_never_hidden,
    law_written_log_is_read_back, views,
};
use crate::error::NoterError;
use crate::note::{hash, Note, NoteView, OperationView};
use crate::replay::{applied, note_views, replay, replayed};
use crate::time::{law_due_persists, Timestamp};
use std::collections::HashMap;
use vstd::prelude::*;
use vstd::std_specs::iter::IteratorSpec;
use vstd::string::*;

verus! {

/// What a confirmation starts with.
pub const CONFIRMATION: &'static str = "Note scheduled for: ";

/// The notes that loading `log` gives: those that replaying leaves, where
/// `log` is the written form of a log, and nothing otherwise.
pub open spec fn loaded(log: Seq<u8>) -> Option<Map<u64, NoteView>> {
    if is_log(log) {
        Some(replayed(choose|ops: Seq<OperationView>| is_log_of(log, ops)))
    } else {
        None
    }
}

/// The record that adds `note` to a log.
pub open spec fn insert_of(note: NoteView) -> OperationView {
    OperationView::Insert { key: note.key(), value: note }
}

/// The record that removes what is stored under `key`.
pub open spec fn tombstone_of(key: u64) -> OperationView {
    OperationView::Tombstone { key }
}

/// The notes scheduled at some moment, as loaded from a log.
pub struct NoteStore {
    path: String,
    notes: HashMap<u64, Note>,
}

/// What adding a note comes to: the key the note goes under, the record
/// for the host to append to the log, and the line that confirms the
/// schedule to the user.
#[derive(Debug)]
pub struct Scheduled {
    pub key: u64,
    pub record: Vec<u8>,
    pub confirmation: String,
}

/// A note that has fallen due: its key, the text for the host to show, and
/// the record for the host to append to the log once it has been shown.
#[derive(Debug)]
pub struct Reminder {
    pub key: u64,
    pub text: String,
    pub tombstone: Vec<u8>,
}

impl Reminder {
    /// Whether this is the reminder for the note under its key in `notes`.
    pub open spec fn reminds_of(self, notes: Map<u64, NoteView>) -> bool {
        &&& notes.contains_key(self.key)
        &&& self.text@ == notes[self.key].text
        &&& self.tombstone@ == record_bytes(tombstone_of(self.key))
    }

    /// Whether this is the reminder for a note of `notes` that is due at
    /// `now`.
    pub open spec fn falls_due(self, notes: Map<u64, NoteView>, now: Timestamp) -> bool {
        self.reminds_of(notes) && notes[self.key].due_at(now)
    }
}

/// Whether `due` holds one reminder for each note of `notes` that is due at
/// `now`, and nothing else. The order is left open.
pub open spec fn reminders_at(
    notes: Map<u64, NoteView>,
    now: Timestamp,
    due: Seq<Reminder>,
) -> bool {
    &&& forall|i: int| 0 <= i < due.len() ==> (#[trigger] due[i]).falls_due(notes, now)
    &&& forall|key: u64| #[trigger]
        notes.contains_key(key) && notes[key].due_at(now) ==> exists|i: int|
            0 <= i < due.len() && (#[trigger] due[i]).key == key
    &&& forall|i: int, j: int|
        0 <= i < j < due.len() ==> (#[trigger] due[i]).key != (#[trigger] due[j]).key
}

impl View for NoteStore {
    type V = Map<u64, NoteView>;

    closed spec fn view(&self) -> Map<u64, NoteView> {
        note_views(self.notes@)
    }
}

impl NoteStore {
    /// Where the host keeps the log that the store was loaded from.
    pub closed spec fn path_text(&self) -> Seq<char> {
        self.path@
    }

    /// Where the host keeps the log that the store was loaded from.
    pub fn path(&self) -> (path: &str)
        ensures
            path@ == self.path_text(),
    {
        self.path.as_str()
    }

    /// How many notes are scheduled.
    pub fn len(&self) -> (n: usize)
        ensures
            n == self@.dom().len(),
    {
        proof {
            assert(self@.dom() =~= self.notes@.dom());
        }
        self.notes.len()
    }

    /// The note that is stored under `key`, if there is one.
    pub fn get(&self, key: u64) -> (note: Option<&Note>)
        ensures
            note is Some <==> self@.contains_key(key),
            note matches Some(n) ==> n@ == self@[key],
    {
        self.notes.get(&key)
    }

    /// Loads the store from the bytes of its log, which the host has read
    /// from `noter_path`. Succeeds exactly on the written form of a log and
    /// then holds the notes that replaying it leaves.
    pub fn load(noter_path: String, log: &[u8]) -> (r: Result<NoteStore, NoterError>)
        ensures
            match r {
                Ok(store) => loaded(log@) == Some(store@) && store.path_text() == noter_path@,
                Err(e) => {
                    &&& loaded(log@) is None
                    &&& e matches NoterError::ParseError(at)
                    &&& at.offset < log.len()
                    &&& is_log(log@.take(at.offset as int))
                    &&& !starts_with_record(log@.skip(at.offset as int))
                },
            },
    {
        match decode_stream(log) {
            Ok(ops) => {
                proof {
                    law_loading_replays(log@, views(ops@));
                }
                Ok(NoteStore { path: noter_path, notes: replay(ops) })
            },
            Err(e) => Err(NoterError::from(e)),
        }
    }

    /// Prepares the addition of `note`: derives its key from its text and
    /// writes the record that the host is to append to the log. Fails where
    /// the schedule has no written form.
    pub fn add(note: &Note) -> (r: Result<Scheduled, NoterError>)
        ensures
            match r {
                Ok(added) => {
                    &&& note@.schedule.storable()
                    &&& added.key == note@.key()
                    &&& added.record@ == record_bytes(insert_of(note@))
                    &&& added.confirmation@ == CONFIRMATION@ + note@.schedule.text()
                },
                Err(e) => !note@.schedule.storable() && e is Mess,
            },
    {
        let schedule = match note.schedule.to_text() {
            Some(text) => text,
            None => {
                return Err(NoterError::from("The schedule is out of range"));
            },
        };
        let key = hash(note.text.as_str());
        let mut record: Vec<u8> = Vec::new();
        write_insert(&mut record, key, note.text.as_str(), schedule.as_str());
        assert(record@ =~= record_bytes(insert_of(note@)));
        let mut confirmation = String::from_str(CONFIRMATION);
        confirmation.append(schedule.as_str());
        Ok(Scheduled { key, record, confirmation })
    }

    /// Finds the notes that are due at `now`. For each of them the host is
    /// to show the text and then to append the tombstone to the log. The
    /// store itself keeps every note: a note leaves only when the log is
    /// loaded again.
    pub fn due_reminders(&self, now: Timestamp) -> (due: Vec<Reminder>)
        ensures
            reminders_at(self@, now, due@),
    {
        let mut due: Vec<Reminder> = Vec::new();
        let ghost mut seen: Seq<int> = Seq::empty();
        for entry in it: self.notes.iter()
            invariant
                it.seq() == self.notes.iter().remaining(),
                it.seq().no_duplicates(),
                seen.len() == due.len(),
                forall|j: int|
                    0 <= j < due.len() ==> 0 <= #[trigger] seen[j] < it.index() && due[j].key
                        == *it.seq()[seen[j]].0,
                forall|j: int, k: int| 0 <= j < k < due.len() ==> seen[j] < seen[k],
                forall|j: int| 0 <= j < due.len() ==> (#[trigger] due[j]).falls_due(self@, now),
                forall|i: int|
                    0 <= i < it.index() && self@[*(#[trigger] it.seq()[i]).0].due_at(now)
                        ==> exists|j: int|
                        0 <= j < due.len() && (#[trigger] due[j]).key == *it.seq()[i].0,
        {
            let (key, note) = entry;
            let ghost at = it.index();
            proof {
                assert(self.notes@.contains_key(*it.seq()[at].0));
                assert(self@[*key] == note@);
            }
            if note.is_due_at(now) {
                let mut tombstone: Vec<u8> = Vec::new();
                write_tombstone(&mut tombstone, *key);
                assert(tombstone@ =~= record_bytes(tombstone_of(*key)));
                let ghost before = due@;
                due.push(Reminder { key: *key, text: note.text.clone(), tombstone });
                proof {
                    seen = seen.push(at);
                    assert forall|i: int|
                        0 <= i < at + 1 && self@[*(#[trigger] it.seq()[i]).0].due_at(
                            now,
                        ) implies exists|j: int|
                        0 <= j < due.len() && (#[trigger] due[j]).key == *it.seq()[i].0 by {
                        if i < at {
                            let j = choose|j: int|
                                0 <= j < before.len() && (#[trigger] before[j]).key
                                    == *it.seq()[i].0;
                            assert(due[j].key == *it.seq()[i].0);
                        } else {
                            assert(due[due.len() - 1].key == *it.seq()[i].0);
                        }
                    }
                }
            }
        }
        proof {
            let all = self.notes.iter().remaining();
            assert forall|key: u64| #[trigger]
                self@.contains_key(key) && self@[key].due_at(now) implies exists|i: int|
                0 <= i < due.len() && (#[trigger] due[i]).key == key by {
                assert(self.notes@.contains_key(key));
                let entry = (&key, &self.notes@[key]);
                assert(all.contains(entry));
                let i = choose|i: int| 0 <= i < all.len() && all[i] == entry;
                assert(*all[i].0 == key);
            }
            assert forall|i: int, j: int| 0 <= i < j < due.len() implies (#[trigger] due[i]).key
                != (#[trigger] due[j]).key by {
                if due[i].key == due[j].key {
                    assert(all[seen[i]] == all[seen[j]]);
                }
            }
        }
        due
    }

    /// Runs one check pass against the local clock: finds the notes that
    /// are due at the moment the clock shows. The store is left as it was.
    pub fn check(&mut self) -> (due: Vec<Reminder>)
        ensures
            final(self)@ == old(self)@,
            final(self).path_text() == old(self).path_text(),
            exists|now: Timestamp| reminders_at(old(self)@, now, due@),
    {
        let now = Timestamp::now();
        self.due_reminders(now)
    }
}

/// Loading the written form of a log gives what replaying the log leaves.
pub proof fn law_loading_replays(log: Seq<u8>, ops: Seq<OperationView>)
    requires
        is_log_of(log, ops),
    ensures
        loaded(log) == Some(replayed(ops)),
{
    let chosen = choose|ops: Seq<OperationView>| is_log_of(log, ops);
    law_written_log_is_read_back(log, ops, chosen);
}

/// Appending a record to a log that loads gives a log that loads, and what
/// it holds is what the record's operation makes of what the log held.
pub proof fn law_appended_record_is_applied(log: Seq<u8>, op: OperationView)
    requires
        loaded(log) is Some,
        storable(op),
    ensures
        loaded(log + record_bytes(op)) == Some(applied(loaded(log).unwrap(), op)),
{
    let ops = choose|ops: Seq<OperationView>| is_log_of(log, ops);
    law_appending_extends_the_log(log, ops, op);
    law_loading_replays(log + record_bytes(op), ops.push(op));
    assert(ops.push(op).drop_last() =~= ops);
}

/// A note that is added to a log is there when the log is loaded again:
/// under the key of its text, with its text and its schedule. Every other
/// key holds what it held.
pub proof fn law_added_note_is_loaded(log: Seq<u8>, note: NoteView)
    requires
        loaded(log) is Some,
        note.schedule.storable(),
    ensures
        ({
            let after = loaded(log + record_bytes(insert_of(note)));
            &&& after == Some(loaded(log).unwrap().insert(note.key(), note))
            &&& after.unwrap().contains_key(note.key())
            &&& after.unwrap()[note.key()] == note
        }),
{
    law_appended_record_is_applied(log, insert_of(note));
}

/// Two notes with the same text share a key, whatever their schedules.
pub proof fn law_key_ignores_schedule(first: NoteView, second: NoteView)
    requires
        first.text == second.text,
    ensures
        first.key() == second.key(),
{
}

/// Of two notes with the same text that are added one after the other,
/// only the second is there when the log is loaded again.
pub proof fn law_later_schedule_wins(log: Seq<u8>, first: NoteView, second: NoteView)
    requires
        loaded(log) is Some,
        first.schedule.storable(),
        second.schedule.storable(),
        first.text == second.text,
    ensures
        loaded(log + record_bytes(insert_of(first)) + record_bytes(insert_of(second))) == Some(
            loaded(log).unwrap().insert(second.key(), second),
        ),
{
    let before = loaded(log).unwrap();
    law_appended_record_is_applied(log, insert_of(first));
    law_appended_record_is_applied(log + record_bytes(insert_of(first)), insert_of(second));
    assert(before.insert(first.key(), first).insert(second.key(), second) =~= before.insert(
        second.key(),
        second,
    ));
}

/// A tombstone that is appended to a log clears its key: the key is not
/// loaded again, and every other key holds what it held.
pub proof fn law_tombstone_clears_its_key(log: Seq<u8>, key: u64)
    requires
        loaded(log) is Some,
    ensures
        ({
            let after = loaded(log + record_bytes(tombstone_of(key)));
            &&& after == Some(loaded(log).unwrap().remove(key))
            &&& !after.unwrap().contains_key(key)
        }),
{
    law_appended_record_is_applied(log, tombstone_of(key));
}

/// The tombstones of the first `shown` reminders, in order.
pub open spec fn tombstones(due: Seq<Reminder>, shown: nat) -> Seq<u8>
    decreases shown,
{
    if shown == 0 {
        seq![]
    } else {
        tombstones(due, (shown - 1) as nat) + due[shown - 1].tombstone@
    }
}

/// Whether one of the first `shown` reminders is for `key`.
pub open spec fn was_shown(due: Seq<Reminder>, shown: nat, key: u64) -> bool {
    exists|i: int| 0 <= i < shown && (#[trigger] due[i]).key == key
}

/// After a check pass, loading the log again gives every note but those
/// whose tombstone was appended. The pass may have stopped early: `shown`
/// counts the reminders that it got through. Where it got through all of
/// them, the notes that are left are exactly those that were not due.
pub proof fn law_checked_notes_leave(log: Seq<u8>, now: Timestamp, due: Seq<Reminder>, shown: nat)
    requires
        loaded(log) is Some,
        reminders_at(loaded(log).unwrap(), now, due),
        shown <= due.len(),
    ensures
        ({
            let before = loaded(log).unwrap();
            let after = loaded(log + tombstones(due, shown));
            &&& after is Some
            &&& forall|key: u64| #[trigger]
                after.unwrap().contains_key(key) <==> before.contains_key(key) && !was_shown(
                    due,
                    shown,
                    key,
                )
            &&& forall|key: u64| #[trigger]
                after.unwrap().contains_key(key) ==> after.unwrap()[key] == before[key]
            &&& shown == due.len() ==> forall|key: u64| #[trigger]
                after.unwrap().contains_key(key) <==> before.contains_key(key)
                    && !before[key].due_at(now)
        }),
    decreases shown,
{
    let before = loaded(log).unwrap();
    if shown == 0 {
        assert(log + tombstones(due, 0) =~= log);
    } else {
        let earlier = (shown - 1) as nat;
        let last = due[shown - 1];
        law_checked_notes_leave(log, now, due, earlier);
        let so_far = log + tombstones(due, earlier);
        law_tombstone_clears_its_key(so_far, last.key);
        assert(log + tombstones(due, shown) =~= so_far + record_bytes(tombstone_of(last.key)));
        let after = loaded(log + tombstones(due, shown)).unwrap();
        assert forall|key: u64| #[trigger]
            after.contains_key(key) <==> before.contains_key(key) && !was_shown(
                due,
                shown,
                key,
            ) by {
            if was_shown(due, shown, key) {
                let i = choose|i: int| 0 <= i < shown && (#[trigger] due[i]).key == key;
                if i < earlier {
                    assert(was_shown(due, earlier, key));
                }
            }
            if was_shown(due, earlier, key) {
                let i = choose|i: int| 0 <= i < earlier && (#[trigger] due[i]).key == key;
                assert(due[i].key == key);
            }
            if key == last.key {
                assert(due[shown - 1].key == key);
            }
        }
    }
    if shown == due.len() {
        let after = loaded(log + tombstones(due, shown)).unwrap();
        assert forall|key: u64| #[trigger]
            after.contains_key(key) <==> before.contains_key(key) && !before[key].due_at(now) by {
            if before.contains_key(key) && before[key].due_at(now) {
                let i = choose|i: int| 0 <= i < due.len() && (#[trigger] due[i]).key == key;
                assert(was_shown(due, shown, key));
            }
            if was_shown(due, shown, key) {
                let i = choose|i: int| 0 <= i < shown && (#[trigger] due[i]).key == key;
                assert(due[i].falls_due(before, now));
            }
        }
    }
}

/// A note that is due and stays in the store is found by every later check
/// pass, however much later.
pub proof fn law_due_note_is_found_later(
    notes: Map<u64, NoteView>,
    key: u64,
    now: Timestamp,
    later: Timestamp,
    due: Seq<Reminder>,
)
    requires
        notes.contains_key(key),
        notes[key].due_at(now),
        now.seconds <= later.seconds,
        reminders_at(notes, later, due),
    ensures
        exists|i: int| 0 <= i < due.len() && (#[trigger] due[i]).key == key,
{
    law_due_persists(notes[key].schedule, now, later);
}

/// A log that is followed by bytes that do not load does not load: damage
/// behind sound records fails the whole load.
pub proof fn law_damage_fails_the_load(log: Seq<u8>, damage: Seq<u8>)
    requires
        loaded(log) is Some,
        loaded(damage) is None,
    ensures
        loaded(log + damage) is None,
{
    law_damage_is_never_hidden(log, damage);
}

} // verus!
