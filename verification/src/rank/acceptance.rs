//! Which rows were accepted for which commands, and when last.
use vstd::prelude::*;

use crate::text::{same, trim, trimmed};

verus! {

/// The state key under which acceptances are kept between sessions.
pub const ACCEPTANCE_STATE_KEY: &'static str = "autocomplete.acceptanceRecency";

/// The acceptance of a row for a command, and when it was accepted last.
pub struct Acceptance {
    pub command: String,
    pub name: String,
    /// Milliseconds since the Unix epoch.
    pub timestamp: u64,
}

/// The last acceptances. Commands are kept apart: accepting `git add` does not
/// promote another command's `add`.
pub struct AcceptanceIndex {
    entries: Vec<Acceptance>,
}

/// The acceptance times by command and name.
pub open spec fn stamp_at(
    entries: Seq<(Seq<char>, Seq<char>, u64)>,
    command: Seq<char>,
    name: Seq<char>,
    i: int,
) -> Option<int>
    decreases entries.len() - i,
{
    if i < 0 || i >= entries.len() {
        None
    } else if entries[i].0 == command && entries[i].1 == name {
        Some(i)
    } else {
        stamp_at(entries, command, name, i + 1)
    }
}

/// When a row was accepted last for a command.
pub open spec fn stamp_of(
    entries: Seq<(Seq<char>, Seq<char>, u64)>,
    command: Seq<char>,
    name: Seq<char>,
) -> Option<u64> {
    match stamp_at(entries, command, name, 0) {
        Some(i) => Some(entries[i].2),
        None => None,
    }
}

/// Whether an acceptance is worth keeping: rows that only navigate or execute
/// are not.
pub open spec fn is_recorded(command: Seq<char>, name: Seq<char>) -> bool {
    trimmed(command).len() > 0 && trimmed(name).len() > 0 && trimmed(name) != "↪"@ && trimmed(name)
        != "../"@
}

/// The acceptances with one more, or with a new time for one.
pub open spec fn recorded(
    entries: Seq<(Seq<char>, Seq<char>, u64)>,
    command: Seq<char>,
    name: Seq<char>,
    timestamp: u64,
) -> Seq<(Seq<char>, Seq<char>, u64)> {
    if !is_recorded(command, name) {
        entries
    } else {
        match stamp_at(entries, trimmed(command), trimmed(name), 0) {
            Some(i) => entries.update(i, (trimmed(command), trimmed(name), timestamp)),
            None => entries.push((trimmed(command), trimmed(name), timestamp)),
        }
    }
}

impl View for AcceptanceIndex {
    type V = Seq<(Seq<char>, Seq<char>, u64)>;

    closed spec fn view(&self) -> Seq<(Seq<char>, Seq<char>, u64)> {
        Seq::new(
            self.entries@.len(),
            |i: int|
                (self.entries@[i].command@, self.entries@[i].name@, self.entries@[i].timestamp),
        )
    }
}

impl Default for AcceptanceIndex {
    fn default() -> (index: AcceptanceIndex)
        ensures
            index@.len() == 0,
    {
        AcceptanceIndex { entries: Vec::new() }
    }
}

impl AcceptanceIndex {
    fn place(&self, command: &str, name: &str) -> (found: Option<usize>)
        ensures
            match found {
                Some(i) => stamp_at(self@, command@, name@, 0) == Some(i as int) && i
                    < self.entries@.len(),
                None => stamp_at(self@, command@, name@, 0) is None,
            },
    {
        let mut i: usize = 0;
        while i < self.entries.len()
            invariant
                i <= self.entries@.len(),
                stamp_at(self@, command@, name@, 0) == stamp_at(
                    self@,
                    command@,
                    name@,
                    i as int,
                ),
            decreases self.entries@.len() - i,
        {
            if same(&self.entries[i].command, command) && same(&self.entries[i].name, name) {
                return Some(i);
            }
            i += 1;
        }
        None
    }

    /// When a row was accepted last for a command, in milliseconds.
    pub fn timestamp(&self, command: &str, name: &str) -> (stamp: Option<u64>)
        ensures
            stamp == stamp_of(self@, command@, name@),
    {
        match self.place(command, name) {
            Some(i) => Some(self.entries[i].timestamp),
            None => None,
        }
    }

    /// Records an acceptance at a time, and says whether it was worth keeping.
    pub fn record_at(&mut self, command: &str, name: &str, timestamp: u64) -> (kept: bool)
        ensures
            kept == is_recorded(command@, name@),
            final(self)@ == recorded(old(self)@, command@, name@, timestamp),
    {
        let command = trim(command);
        let name = trim(name);
        if command.as_str().is_empty() || name.as_str().is_empty() || same(&name, "↪") || same(
            &name,
            "../",
        ) {
            return false;
        }
        let ghost start = self@;
        let entry = Acceptance { command: command.clone(), name: name.clone(), timestamp };
        match self.place(&command, &name) {
            Some(i) => {
                self.entries.set(i, entry);
                proof {
                    assert(self@ =~= start.update(i as int, (command@, name@, timestamp)));
                }
            },
            None => {
                self.entries.push(entry);
                proof {
                    assert(self@ =~= start.push((command@, name@, timestamp)));
                }
            },
        }
        true
    }

    /// The acceptances, for keeping them between sessions.
    pub fn entries(&self) -> (entries: &Vec<Acceptance>)
        ensures
            self@ == Seq::new(
                entries@.len(),
                |i: int|
                    (entries@[i].command@, entries@[i].name@, entries@[i].timestamp),
            ),
    {
        &self.entries
    }

    /// An index with the same acceptances.
    pub fn copied(&self) -> (copy: AcceptanceIndex)
        ensures
            copy@ == self@,
    {
        let mut entries: Vec<Acceptance> = Vec::new();
        let mut i: usize = 0;
        while i < self.entries.len()
            invariant
                i <= self.entries@.len(),
                entries@.len() == i,
                forall|k: int| 0 <= k < i ==> #[trigger] entries@[k] == self.entries@[k],
            decreases self.entries@.len() - i,
        {
            let entry = &self.entries[i];
            entries.push(
                Acceptance {
                    command: entry.command.clone(),
                    name: entry.name.clone(),
                    timestamp: entry.timestamp,
                },
            );
            i += 1;
        }
        let copy = AcceptanceIndex { entries };
        proof {
            assert(copy@ =~= self@);
        }
        copy
    }
}

/// An index of the given acceptances, each recorded in turn.
pub open spec fn recorded_all(list: Seq<(String, String, u64)>) -> Seq<(Seq<char>, Seq<char>, u64)>
    decreases list.len(),
{
    if list.len() == 0 {
        Seq::empty()
    } else {
        recorded(
            recorded_all(list.drop_last()),
            list.last().0@,
            list.last().1@,
            list.last().2,
        )
    }
}

impl AcceptanceIndex {
    /// An index of the given acceptances: command, name and time.
    pub fn from_entries(list: Vec<(String, String, u64)>) -> (index: AcceptanceIndex)
        ensures
            index@ == recorded_all(list@),
    {
        let mut index = AcceptanceIndex { entries: Vec::new() };
        let mut i: usize = 0;
        proof {
            assert(list@.take(0) =~= Seq::<(String, String, u64)>::empty());
            assert(index@ =~= Seq::<(Seq<char>, Seq<char>, u64)>::empty());
        }
        while i < list.len()
            invariant
                i <= list@.len(),
                index@ == recorded_all(list@.take(i as int)),
            decreases list@.len() - i,
        {
            proof {
                assert(list@.take(i + 1).drop_last() =~= list@.take(i as int));
                assert(list@.take(i + 1).last() == list@[i as int]);
            }
            let _ = index.record_at(&list[i].0, &list[i].1, list[i].2);
            i += 1;
        }
        proof {
            assert(list@.take(list@.len() as int) =~= list@);
        }
        index
    }
}

proof fn lemma_stamp_at(
    entries: Seq<(Seq<char>, Seq<char>, u64)>,
    command: Seq<char>,
    name: Seq<char>,
    i: int,
)
    requires
        0 <= i <= entries.len(),
    ensures
        match stamp_at(entries, command, name, i) {
            Some(k) => i <= k < entries.len() && entries[k].0 == command && entries[k].1 == name,
            None => forall|k: int|
                i <= k < entries.len() ==> !((#[trigger] entries[k]).0 == command && entries[k].1
                    == name),
        },
    decreases entries.len() - i,
{
    if i < entries.len() && !(entries[i].0 == command && entries[i].1 == name) {
        lemma_stamp_at(entries, command, name, i + 1);
    }
}

proof fn lemma_stamp_extends(
    entries: Seq<(Seq<char>, Seq<char>, u64)>,
    more: Seq<(Seq<char>, Seq<char>, u64)>,
    command: Seq<char>,
    name: Seq<char>,
    i: int,
)
    requires
        0 <= i <= entries.len(),
        entries.len() <= more.len() <= entries.len() + 1,
        forall|k: int|
            0 <= k < entries.len() ==> (#[trigger] more[k]).0 == entries[k].0 && more[k].1
                == entries[k].1,
        more.len() > entries.len() ==> !(more.last().0 == command && more.last().1 == name),
    ensures
        stamp_at(more, command, name, i) == stamp_at(entries, command, name, i),
    decreases entries.len() - i,
{
    if i < entries.len() {
        assert(more[i].0 == entries[i].0);
        lemma_stamp_extends(entries, more, command, name, i + 1);
    } else if more.len() > entries.len() {
        assert(stamp_at(more, command, name, i + 1) is None);
    }
}

/// What was recorded is found: the recorded time is the last of its command
/// and name, and no other command's or name's time changes.
pub proof fn law_records_are_found(
    entries: Seq<(Seq<char>, Seq<char>, u64)>,
    command: Seq<char>,
    name: Seq<char>,
    timestamp: u64,
    other_command: Seq<char>,
    other_name: Seq<char>,
)
    ensures
        is_recorded(command, name) ==> stamp_of(
            recorded(entries, command, name, timestamp),
            trimmed(command),
            trimmed(name),
        ) == Some(timestamp),
        (!is_recorded(command, name) || other_command != trimmed(command) || other_name != trimmed(
            name,
        )) ==> stamp_of(
            recorded(entries, command, name, timestamp),
            other_command,
            other_name,
        ) == stamp_of(entries, other_command, other_name),
{
    let out = recorded(entries, command, name, timestamp);
    let c = trimmed(command);
    let n = trimmed(name);
    if is_recorded(command, name) {
        lemma_stamp_at(entries, c, n, 0);
        match stamp_at(entries, c, n, 0) {
            Some(i) => {
                lemma_stamp_extends(entries, out, c, n, 0);
                lemma_stamp_extends(entries, out, other_command, other_name, 0);
                lemma_stamp_at(entries, other_command, other_name, 0);
            },
            None => {
                lemma_stamp_at(out, c, n, 0);
                assert(out[entries.len() as int] == (c, n, timestamp));
                let k = stamp_at(out, c, n, 0)->Some_0;
                if k < entries.len() {
                    assert(out[k] == entries[k]);
                }
                if other_command != c || other_name != n {
                    lemma_stamp_extends(entries, out, other_command, other_name, 0);
                    lemma_stamp_at(entries, other_command, other_name, 0);
                }
            },
        }
    }
}

} // verus!
