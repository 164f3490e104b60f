//! The key table: every named entity that strings may refer to.

use vstd::prelude::*;

use crate::config::Name;
use crate::error::{Error, ErrorKind, Failure};
use crate::preprocessor::Preprocessable;

verus! {

/// A named entity of either kind.
#[derive(Debug, Clone, PartialEq, Eq)]
pub enum AnyPreprocessable {
    Name(Preprocessable<Name>),
    String(Preprocessable<String>),
}

/// What an entry of the key table holds: the text it was written as, with
/// the references still in it, or its final text.
pub enum Slot {
    Pending(Seq<char>),
    Done(Seq<char>),
}

impl AnyPreprocessable {
    /// What the entity holds, given the prefix that untagged names get.
    pub open spec fn slot(self, prefix: Seq<char>) -> Slot {
        match self {
            AnyPreprocessable::Name(Preprocessable::NotPreprocessed(name)) => Slot::Pending(
                name.text(prefix),
            ),
            AnyPreprocessable::Name(Preprocessable::Preprocessed(text)) => Slot::Done(text@),
            AnyPreprocessable::String(Preprocessable::NotPreprocessed(source)) => Slot::Pending(
                source@,
            ),
            AnyPreprocessable::String(Preprocessable::Preprocessed(text)) => Slot::Done(text@),
        }
    }

    /// The final text, if the entity is resolved.
    pub open spec fn resolved(self) -> Option<Seq<char>> {
        match self {
            AnyPreprocessable::Name(name) => name.resolved(),
            AnyPreprocessable::String(string) => string.resolved(),
        }
    }
}

/// One entry of the key table.
#[derive(Debug, Clone, PartialEq, Eq)]
pub struct KeyEntry {
    pub key: String,
    pub value: AnyPreprocessable,
}

/// The named entities, in the order in which they were entered.
#[derive(Debug, Clone, PartialEq, Eq)]
pub struct KeyTable {
    pub entries: Vec<KeyEntry>,
}

/// The final texts of the slots; none for a slot that is pending.
pub open spec fn done_texts(slots: Seq<Slot>) -> Seq<Option<Seq<char>>> {
    Seq::new(
        slots.len(),
        |i: int|
            match slots[i] {
                Slot::Pending(_) => None,
                Slot::Done(text) => Some(text),
            },
    )
}

/// The place of the first entry with the given name.
pub open spec fn position(names: Seq<Seq<char>>, name: Seq<char>) -> Option<int>
    decreases names.len(),
{
    if names.len() == 0 {
        None
    } else {
        match position(names.drop_last(), name) {
            Some(i) => Some(i),
            None => if names.last() == name {
                Some(names.len() - 1)
            } else {
                None
            },
        }
    }
}

/// Whether no two entries share a name.
pub open spec fn distinct(names: Seq<Seq<char>>) -> bool {
    forall|i: int, j: int| 0 <= i < j < names.len() ==> names[i] != names[j]
}

/// `position` finds the first entry with the name, and finds none only
/// where there is none.
pub proof fn lemma_position(names: Seq<Seq<char>>, name: Seq<char>)
    ensures
        match position(names, name) {
            Some(i) => 0 <= i < names.len() && names[i] == name && forall|j: int|
                0 <= j < i ==> names[j] != name,
            None => forall|j: int| 0 <= j < names.len() ==> names[j] != name,
        },
    decreases names.len(),
{
    if names.len() > 0 {
        lemma_position(names.drop_last(), name);
        assert forall|j: int| 0 <= j < names.len() - 1 implies names[j] == names.drop_last()[j] by {}
    }
}

impl KeyTable {
    /// The names of the entries.
    pub open spec fn names(self) -> Seq<Seq<char>> {
        Seq::new(self.entries@.len(), |i: int| self.entries@[i].key@)
    }

    /// What the entries hold, given the prefix that untagged names get.
    pub open spec fn slots(self, prefix: Seq<char>) -> Seq<Slot> {
        Seq::new(self.entries@.len(), |i: int| self.entries@[i].value.slot(prefix))
    }

    /// Whether the table is well formed: no two entries share a name.
    pub open spec fn wf(self) -> bool {
        distinct(self.names())
    }

    /// The final texts of the entries; none for an entry that is pending.
    pub open spec fn texts(self) -> Seq<Option<Seq<char>>> {
        Seq::new(self.entries@.len(), |i: int| self.entries@[i].value.resolved())
    }

    /// Whether every entry is resolved.
    pub open spec fn all_resolved(self) -> bool {
        forall|i: int| 0 <= i < self.entries@.len() ==> (#[trigger] self.texts()[i]) is Some
    }

    /// The texts of a table are those of its slots.
    pub proof fn lemma_texts_of_slots(self, prefix: Seq<char>)
        ensures
            self.texts() == done_texts(self.slots(prefix)),
    {
        assert(self.texts() =~= done_texts(self.slots(prefix)));
    }

    /// A table without entries.
    pub fn new() -> (table: KeyTable)
        ensures
            table.entries@.len() == 0,
            table.wf(),
    {
        KeyTable { entries: Vec::new() }
    }

    /// The number of entries.
    pub fn len(&self) -> (n: usize)
        ensures
            n == self.entries@.len(),
    {
        self.entries.len()
    }

    /// The place of the entry with the given name.
    pub fn find(&self, key: &String) -> (place: Option<usize>)
        ensures
            match place {
                Some(i) => position(self.names(), key@) == Some(i as int) && i
                    < self.entries@.len(),
                None => position(self.names(), key@) is None,
            },
    {
        let ghost names = self.names();
        let mut i: usize = 0;
        while i < self.entries.len()
            invariant
                0 <= i <= self.entries@.len(),
                names == self.names(),
                forall|j: int| 0 <= j < i ==> names[j] != key@,
            decreases self.entries@.len() - i,
        {
            if self.entries[i].key == *key {
                proof {
                    assert(names[i as int] == key@);
                    lemma_position(names, key@);
                }
                return Some(i);
            }
            i = i + 1;
        }
        proof {
            lemma_position(names, key@);
        }
        None
    }

    /// The entity with the given name.
    pub fn get(&self, key: &String) -> (value: Option<&AnyPreprocessable>)
        ensures
            match value {
                Some(found) => position(self.names(), key@) matches Some(i) && 0 <= i
                    < self.entries@.len() && *found == self.entries@[i].value,
                None => position(self.names(), key@) is None,
            },
    {
        match self.find(key) {
            Some(i) => Some(&self.entries[i].value),
            None => None,
        }
    }

    /// Enters an entity under a name that the table does not hold yet.
    pub fn insert(&mut self, key: String, value: AnyPreprocessable) -> (result: Result<(), Error>)
        ensures
            match result {
                Ok(()) => position(old(self).names(), key@) is None && final(self).entries@
                    == old(self).entries@.push(KeyEntry { key, value }),
                Err(e) => position(old(self).names(), key@) is Some && e@ == Failure::named(
                    ErrorKind::DuplicateKey,
                    key@,
                ) && *final(self) == *old(self),
            },
            old(self).wf() ==> final(self).wf(),
    {
        match self.find(&key) {
            Some(_) => Err(Error::named(ErrorKind::DuplicateKey, key.as_str())),
            None => {
                proof {
                    lemma_position(self.names(), key@);
                }
                self.entries.push(KeyEntry { key, value });
                assert(self.names() =~= old(self).names().push(key@));
                Ok(())
            },
        }
    }

    /// Replaces the entity at a place by its final text.
    pub fn settle(&mut self, place: usize, text: String)
        requires
            place < old(self).entries@.len(),
        ensures
            final(self).entries@.len() == old(self).entries@.len(),
            final(self).names() == old(self).names(),
            final(self).texts() == old(self).texts().update(place as int, Some(text@)),
            forall|prefix: Seq<char>|
                (#[trigger] final(self).slots(prefix)) == old(self).slots(prefix).update(
                    place as int,
                    Slot::Done(text@),
                ),
    {
        let key = self.entries[place].key.clone();
        let value = match &self.entries[place].value {
            AnyPreprocessable::Name(_) => AnyPreprocessable::Name(
                Preprocessable::Preprocessed(text),
            ),
            AnyPreprocessable::String(_) => AnyPreprocessable::String(
                Preprocessable::Preprocessed(text),
            ),
        };
        self.entries.set(place, KeyEntry { key, value });
        proof {
            assert(self.names() =~= old(self).names());
            assert(self.texts() =~= old(self).texts().update(place as int, Some(text@)));
            assert forall|prefix: Seq<char>|
                (#[trigger] self.slots(prefix)) == old(self).slots(prefix).update(
                    place as int,
                    Slot::Done(text@),
                ) by {
                assert(self.slots(prefix) =~= old(self).slots(prefix).update(
                    place as int,
                    Slot::Done(text@),
                ));
            }
        }
    }
}

} // verus!
