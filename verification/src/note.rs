//! Notes, the keys they are stored under, and the two operations that a log
//! records.

use crate::time::{due_at, local_clock, TimeOfDay, Timestamp};
use std::collections::hash_map::DefaultHasher;
use std::hash::{Hash, Hasher};
use vstd::prelude::*;
use vstd::std_specs::hash::*;

verus! {

/// What a note is: its text and the moment it is scheduled for.
pub struct NoteView {
    pub text: Seq<char>,
    pub schedule: Timestamp,
}

/// A reminder: a short text and the moment at which it is to be shown.
#[derive(Debug)]
pub struct Note {
    pub text: String,
    pub schedule: Timestamp,
}

impl View for Note {
    type V = NoteView;

    open spec fn view(&self) -> NoteView {
        NoteView { text: self.text@, schedule: self.schedule }
    }
}

/// What an operation is.
pub enum OperationView {
    Insert { key: u64, value: NoteView },
    Tombstone { key: u64 },
}

/// One entry of the log. `Insert` puts a note under a key, replacing what was
/// there; `Tombstone` clears a key.
#[derive(Debug)]
pub enum Operation {
    Insert { key: u64, value: Note },
    Tombstone { key: u64 },
}

impl View for Operation {
    type V = OperationView;

    open spec fn view(&self) -> OperationView {
        match *self {
            Operation::Insert { key, value } => OperationView::Insert { key, value: value@ },
            Operation::Tombstone { key } => OperationView::Tombstone { key },
        }
    }
}

/// What the standard library's `Hash` for `str` feeds into a hasher for
/// `text`.
pub uninterp spec fn hashed_writes(text: Seq<char>) -> Seq<Seq<u8>>;

/// The key of a note: the hash of its text, and of nothing else.
pub open spec fn key_of(text: Seq<char>) -> u64 {
    DefaultHasher::spec_finish(Seq::<Seq<u8>>::empty() + hashed_writes(text))
}

/// Feeds `text` into `hasher` through the standard library's `Hash` for
/// `str`. The contract gives a name to what is written, which depends on the
/// text alone, and says that it follows what the hasher was fed before.
#[verifier::external_body]
fn feed_text(hasher: &mut DefaultHasher, text: &str)
    ensures
        final(hasher)@ == old(hasher)@ + hashed_writes(text@),
{
    text.hash(hasher);
}

/// Derives the key under which a note with this text is stored. The same
/// text always gives the same key.
pub fn hash(text: &str) -> (key: u64)
    ensures
        key == key_of(text@),
{
    let mut hasher = DefaultHasher::new();
    feed_text(&mut hasher, text);
    hasher.finish()
}

impl NoteView {
    /// Whether the note falls due at `now`.
    pub open spec fn due_at(self, now: Timestamp) -> bool {
        due_at(self.schedule, now)
    }

    /// The key under which the note is stored.
    pub open spec fn key(self) -> u64 {
        key_of(self.text)
    }
}

impl Note {
    /// The note that a request resolves to on day `today`: scheduled for
    /// `datetime` where one is given, else for `time` on that day.
    pub open spec fn resolved(
        text: Seq<char>,
        datetime: Option<Timestamp>,
        time: Option<TimeOfDay>,
        today: i32,
    ) -> NoteView {
        NoteView {
            text,
            schedule: match datetime {
                Some(at) => at,
                None => Timestamp::on_day(today, time.unwrap().second_of_day() as u32),
            },
        }
    }

    /// Resolves a request on day `today` (a day number, where 0001-01-01 is
    /// day 1).
    pub fn scheduled(
        text: String,
        datetime: Option<Timestamp>,
        time: Option<TimeOfDay>,
        today: i32,
    ) -> (note: Note)
        requires
            datetime is Some || time is Some,
        ensures
            note@ == Note::resolved(text@, datetime, time, today),
    {
        let schedule = match datetime {
            Some(at) => at,
            None => Timestamp::from_day_and_second(today, time.unwrap().seconds()),
        };
        Note { text, schedule }
    }

    /// Resolves a request against the local clock: the note is scheduled for
    /// `datetime` where one is given, else for `time` on the clock's day.
    pub fn new(text: String, datetime: Option<Timestamp>, time: Option<TimeOfDay>) -> (note: Note)
        requires
            datetime is Some || time is Some,
        ensures
            exists|today: i32| note@ == Note::resolved(text@, datetime, time, today),
    {
        let today: i32 = match datetime {
            Some(_) => 0,
            None => local_clock().0,
        };
        Note::scheduled(text, datetime, time, today)
    }

    /// Whether the note falls due at `now`.
    pub fn is_due_at(&self, now: Timestamp) -> (due: bool)
        ensures
            due == self@.due_at(now),
    {
        self.schedule.is_due(now)
    }
}

/// Whether the note falls due at the moment the local clock shows.
pub fn is_note_due(note: &Note) -> (due: bool)
    ensures
        exists|now: Timestamp| due == note@.due_at(now),
{
    let now = Timestamp::now();
    note.is_due_at(now)
}

} // verus!
