//! The index: for each key that has a value, where in the log the record
//! lies that holds it.

use vstd::prelude::*;
use vstd::hash_map::StringHashMap;
use crate::command::Command;
use crate::log::{replayed, CommandLog, Locator};
use crate::replay::{locations, ordinals_upto};
use crate::text::{record_count, spans};

verus! {

/// Whether `index` holds, for each key to which the log `text` gives a
/// value, the place of the record that holds the value, and no other key.
pub open spec fn indexes(index: Map<Seq<char>, Locator>, text: Seq<u8>) -> bool {
    &&& index.dom() == locations(text).dom()
    &&& forall|key: Seq<char>| #[trigger]
        index.contains_key(key) ==> index[key]@ == locations(text)[key]
}

/// A map from keys to locators.
pub struct Index {
    map: StringHashMap<Locator>,
}

impl View for Index {
    type V = Map<Seq<char>, Locator>;

    closed spec fn view(&self) -> Map<Seq<char>, Locator> {
        self.map@
    }
}

impl Index {
    /// An index without keys.
    pub fn new() -> (index: Index)
        ensures
            index@ == Map::<Seq<char>, Locator>::empty(),
    {
        Index { map: StringHashMap::new() }
    }

    /// The locator of `key`, where it has one.
    pub fn get(&self, key: &str) -> (r: Option<Locator>)
        ensures
            r == if self@.contains_key(key@) {
                Some(self@[key@])
            } else {
                None
            },
    {
        match self.map.get(key) {
            Some(locator) => Some(*locator),
            None => None,
        }
    }

    /// Points `key` at `locator`, whether or not it pointed anywhere before.
    pub fn put(&mut self, key: String, locator: Locator)
        ensures
            final(self)@ == old(self)@.insert(key@, locator),
    {
        self.map.insert(key, locator);
    }

    /// Forgets `key`, if it was there.
    pub fn delete(&mut self, key: &str)
        ensures
            final(self)@ == old(self)@.remove(key@),
    {
        self.map.remove(key);
    }

    /// Forgets what the index held and builds it anew from the log, taking
    /// the records in order: a write points its key at its record, a delete
    /// forgets its key. Returns the number of records that the log holds.
    pub fn rebuild_from(&mut self, log: &CommandLog) -> (count: usize)
        ensures
            indexes(final(self)@, log@),
            count == record_count(log@),
    {
        let ghost text = log@;
        let entries = log.replay();
        self.map.clear();
        let mut i: usize = 0;
        while i < entries.len()
            invariant
                text == log@,
                i <= entries@.len(),
                replayed(entries@, text),
                self@.dom() == ordinals_upto(text, i as nat).dom(),
                forall|key: Seq<char>| #[trigger]
                    self@.contains_key(key) ==> self@[key]@ == spans(text)[ordinals_upto(
                        text,
                        i as nat,
                    )[key]],
            decreases entries@.len() - i,
        {
            let entry = &entries[i];
            match &entry.1 {
                Some(Command::Write { key, .. }) => {
                    self.map.insert(key.clone(), entry.0);
                },
                Some(Command::Delete { key }) => {
                    self.map.remove(key.as_str());
                },
                None => {},
            }
            i = i + 1;
        }
        proof {
            assert(self@.dom() =~= locations(text).dom());
        }
        entries.len()
    }
}

} // verus!
