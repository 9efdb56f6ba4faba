//! The store: the log, the index of the log, and the rule that says when the
//! log is compacted.

use vstd::prelude::*;
use crate::command::{faithful, record_bytes, Command, CommandView};
use crate::compactor::compact_log;
use crate::error::CustomError;
use crate::index::{indexes, Index};
use crate::log::{CommandLog, Locator};
use crate::replay::{
    apply, compacted, contents, lemma_compacted, lemma_ordinals, lemma_replay_append, locations,
    ordinals,
};
use crate::text::{
    lemma_records_append, lemma_span_at, normalized, record, record_count, Span, NEWLINE,
};

verus! {

/// The name of the log file inside a directory that is given in place of a
/// file.
pub const FILE_NAME: &'static str = "log.txt";

/// The log is compacted after every so many mutations.
pub const COMPACT_FREQUENCY: usize = 50;

/// The log after the record of `cmd` was appended, behind the newline that
/// the last line may have lacked.
pub open spec fn appended(text: Seq<u8>, cmd: CommandView) -> Seq<u8> {
    normalized(text) + record_bytes(cmd) + seq![NEWLINE]
}

/// Whether compaction is due once `count` mutations are counted: at every
/// multiple of `COMPACT_FREQUENCY`.
pub open spec fn due(count: nat) -> bool {
    count % (COMPACT_FREQUENCY as nat) == 0
}

/// The log after a mutation, `count` mutations having been counted before
/// it: the record of `cmd` is appended, and the log is compacted if that is
/// due with this mutation.
pub open spec fn logged(text: Seq<u8>, count: nat, cmd: CommandView) -> Seq<u8> {
    if due(count + 1) {
        compacted(appended(text, cmd))
    } else {
        appended(text, cmd)
    }
}

/// The count after a mutation, `count` having been counted before it: one
/// more, and none once compaction was due.
pub open spec fn counted_after(count: nat) -> nat {
    if due(count + 1) {
        0
    } else {
        count + 1
    }
}

/// A key-value store over a command log.
pub struct KvStore {
    index: Index,
    log: CommandLog,
    filepath: String,
    mutations: usize,
    saved: usize,
}

impl View for KvStore {
    type V = Map<Seq<char>, Seq<char>>;

    /// The value of each key that has one: what the log leaves.
    open spec fn view(&self) -> Map<Seq<char>, Seq<char>> {
        contents(self.log_text())
    }
}

impl KvStore {
    /// The bytes of the log.
    pub closed spec fn log_text(&self) -> Seq<u8> {
        self.log@
    }

    /// What the index holds.
    pub closed spec fn index_map(&self) -> Map<Seq<char>, Locator> {
        self.index@
    }

    /// The path of the file that the log is kept in.
    pub closed spec fn path(&self) -> Seq<char> {
        self.filepath@
    }

    /// The mutations counted since compaction was last due: the count that
    /// decides when the log is compacted next.
    pub closed spec fn counted(&self) -> nat {
        self.mutations as nat
    }

    /// The number of leading bytes of the log that the file is known to hold.
    pub closed spec fn saved_len(&self) -> nat {
        self.saved as nat
    }

    /// A store is well formed when its index is the index of its log, and
    /// its count has not reached the mutation with which compaction is due.
    pub open spec fn wf(&self) -> bool {
        &&& indexes(self.index_map(), self.log_text())
        &&& self.counted() < COMPACT_FREQUENCY
        &&& self.saved_len() <= self.log_text().len()
    }

    /// A store with an empty log, to be kept in the file at `filepath`.
    pub fn new(filepath: String) -> (store: KvStore)
        ensures
            store.wf(),
            store.path() == filepath@,
            store.log_text() == Seq::<u8>::empty(),
            store@ == Map::<Seq<char>, Seq<char>>::empty(),
            store.counted() == 0,
            store.saved_len() == 0,
    {
        let store = KvStore {
            index: Index::new(),
            log: CommandLog::new(),
            filepath,
            mutations: 0,
            saved: 0,
        };
        proof {
            assert(store.index@.dom() =~= locations(store.log@).dom());
        }
        store
    }

    /// The store over the log that the file at `filepath` holds, `bytes`
    /// being the contents of the file. The index is built by replaying the
    /// log, and every record of the file counts as a mutation already made,
    /// so that compaction is due as it would be had the store made them.
    /// Reading the file is the caller's part, so nothing is left that could
    /// fail.
    pub fn open(filepath: String, bytes: Vec<u8>) -> (r: Result<KvStore, CustomError>)
        ensures
            r matches Ok(store) && {
                &&& store.wf()
                &&& store.path() == filepath@
                &&& store.log_text() == bytes@
                &&& store.counted() == record_count(bytes@) % (COMPACT_FREQUENCY as nat)
                &&& store.saved_len() == bytes@.len()
            },
    {
        let saved = bytes.len();
        let mut store = KvStore::new(filepath);
        store.log = CommandLog::from_bytes(bytes);
        store.saved = saved;
        store.load_into_memory();
        Ok(store)
    }

    /// Builds the index and the count anew from the log.
    fn load_into_memory(&mut self)
        requires
            old(self).saved <= old(self).log@.len(),
        ensures
            final(self).wf(),
            final(self).counted() == record_count(old(self).log@) % (COMPACT_FREQUENCY as nat),
            final(self).log == old(self).log,
            final(self).filepath == old(self).filepath,
            final(self).saved == old(self).saved,
    {
        let records = self.index.rebuild_from(&self.log);
        self.mutations = records % COMPACT_FREQUENCY;
    }

    /// The path of the file that the log is kept in.
    pub fn filepath(&self) -> (path: &str)
        ensures
            path@ == self.path(),
    {
        self.filepath.as_str()
    }

    /// The log.
    pub fn log(&self) -> (log: &CommandLog)
        ensures
            log@ == self.log_text(),
    {
        &self.log
    }

    /// The mutations counted since compaction was last due.
    pub fn mutations(&self) -> (n: usize)
        ensures
            n == self.counted(),
    {
        self.mutations
    }

    /// What the file lacks: the number of leading bytes of the log that it
    /// holds already, and the bytes of the log behind these. The file is up
    /// to date once it holds that many of its bytes and then the others.
    pub fn unsaved(&self) -> (r: (usize, &[u8]))
        requires
            self.wf(),
        ensures
            r.0 == self.saved_len(),
            r.1@ == self.log_text().skip(r.0 as int),
    {
        let bytes = self.log.as_bytes();
        (self.saved, vstd::slice::slice_subrange(bytes, self.saved, bytes.len()))
    }

    /// Notes that the file holds the whole log.
    pub fn mark_saved(&mut self)
        requires
            old(self).wf(),
        ensures
            final(self).wf(),
            final(self).log_text() == old(self).log_text(),
            final(self).path() == old(self).path(),
            final(self).counted() == old(self).counted(),
            final(self).saved_len() == final(self).log_text().len(),
    {
        self.saved = self.log.len();
    }

    /// Gives `key` the value `value`: appends the write to the log, points
    /// the index at it, and compacts the log if it is due. Fails, with
    /// nothing changed, where the write has no faithful record.
    pub fn set(&mut self, key: String, value: String) -> (r: Result<(), CustomError>)
        requires
            old(self).wf(),
        ensures
            final(self).wf(),
            final(self).path() == old(self).path(),
            ({
                let cmd = CommandView::Write { key: key@, value: value@ };
                match r {
                    Ok(()) => {
                        &&& faithful(cmd)
                        &&& final(self).log_text() == logged(
                            old(self).log_text(),
                            old(self).counted(),
                            cmd,
                        )
                        &&& final(self).counted() == counted_after(old(self).counted())
                        &&& due(old(self).counted() + 1) ==> final(self)@.dom().finite()
                            && record_count(final(self).log_text()) == final(self)@.dom().len()
                        &&& final(self)@ == old(self)@.insert(key@, value@)
                        &&& final(self).saved_len() == if due(old(self).counted() + 1) {
                            0
                        } else {
                            old(self).saved_len()
                        }
                    },
                    Err(e) => {
                        &&& e == CustomError::SerializationError
                        &&& !faithful(cmd)
                        &&& final(self).log_text() == old(self).log_text()
                        &&& final(self).index_map() == old(self).index_map()
                        &&& final(self).counted() == old(self).counted()
                        &&& final(self).saved_len() == old(self).saved_len()
                    },
                }
            }),
    {
        let name = key.clone();
        let cmd = Command::Write { key, value };
        let ghost text = self.log@;
        let locator = match self.log.append(&cmd) {
            Ok(locator) => locator,
            Err(e) => { return Err(e); },
        };
        proof {
            lemma_index_follows(self.index@, text, cmd@, locator);
        }
        self.index.put(name, locator);
        self.count_one();
        Ok(())
    }

    /// Takes the value of `key` away: appends the delete to the log, drops
    /// the key from the index, and compacts the log if it is due. Fails, with
    /// nothing changed, where the key has no value, or where the delete has
    /// no faithful record.
    pub fn remove(&mut self, key: String) -> (r: Result<(), CustomError>)
        requires
            old(self).wf(),
        ensures
            final(self).wf(),
            final(self).path() == old(self).path(),
            ({
                let cmd = CommandView::Delete { key: key@ };
                match r {
                    Ok(()) => {
                        &&& old(self)@.contains_key(key@)
                        &&& faithful(cmd)
                        &&& final(self).log_text() == logged(
                            old(self).log_text(),
                            old(self).counted(),
                            cmd,
                        )
                        &&& final(self).counted() == counted_after(old(self).counted())
                        &&& due(old(self).counted() + 1) ==> final(self)@.dom().finite()
                            && record_count(final(self).log_text()) == final(self)@.dom().len()
                        &&& final(self)@ == old(self)@.remove(key@)
                        &&& final(self).saved_len() == if due(old(self).counted() + 1) {
                            0
                        } else {
                            old(self).saved_len()
                        }
                    },
                    Err(e) => {
                        &&& final(self).log_text() == old(self).log_text()
                        &&& final(self).index_map() == old(self).index_map()
                        &&& final(self).counted() == old(self).counted()
                        &&& final(self).saved_len() == old(self).saved_len()
                        &&& if old(self)@.contains_key(key@) {
                            e == CustomError::SerializationError && !faithful(cmd)
                        } else {
                            e == CustomError::KeyNotFound
                        }
                    },
                }
            }),
    {
        proof {
            lemma_ordinals(self.log@, record_count(self.log@));
        }
        if self.index.get(key.as_str()).is_none() {
            return Err(CustomError::KeyNotFound);
        }
        let name = key.clone();
        let cmd = Command::Delete { key };
        let ghost text = self.log@;
        let locator = match self.log.append(&cmd) {
            Ok(locator) => locator,
            Err(e) => { return Err(e); },
        };
        proof {
            lemma_index_follows(self.index@, text, cmd@, locator);
        }
        self.index.delete(name.as_str());
        self.count_one();
        Ok(())
    }

    /// Counts the mutation that was just made, the log and the index being
    /// up to date already, and compacts the log if that is due.
    fn count_one(&mut self)
        requires
            indexes(old(self).index@, old(self).log@),
            old(self).mutations < COMPACT_FREQUENCY,
            old(self).saved <= old(self).log@.len(),
        ensures
            final(self).wf(),
            final(self).filepath@ == old(self).filepath@,
            final(self).log@ == if due(old(self).counted() + 1) {
                compacted(old(self).log@)
            } else {
                old(self).log@
            },
            final(self)@ == old(self)@,
            final(self).counted() == counted_after(old(self).counted()),
            due(old(self).counted() + 1) ==> final(self)@.dom().finite() && record_count(
                final(self).log@,
            ) == final(self)@.dom().len(),
            final(self).saved == if due(old(self).counted() + 1) {
                0
            } else {
                old(self).saved
            },
    {
        self.mutations = self.mutations + 1;
        if self.mutations % COMPACT_FREQUENCY == 0 {
            self.mutations = 0;
            self.compact();
        }
    }

    /// The value of `key`, where it has one. A key without a value is no
    /// error. The value is read from the record that the index points at.
    pub fn get(&self, key: String) -> (r: Result<Option<String>, CustomError>)
        requires
            self.wf(),
        ensures
            match r {
                Ok(Some(value)) => self@.contains_key(key@) && value@ == self@[key@],
                Ok(None) => !self@.contains_key(key@),
                Err(_) => false,
            },
    {
        proof {
            lemma_ordinals(self.log@, record_count(self.log@));
        }
        let locator = match self.index.get(key.as_str()) {
            Some(locator) => locator,
            None => { return Ok(None); },
        };
        proof {
            lemma_span_at(self.log@, 0, ordinals(self.log@)[key@]);
        }
        match self.log.read_at(locator) {
            Ok(Command::Write { value, .. }) => Ok(Some(value)),
            Ok(Command::Delete { .. }) => Ok(None),
            Err(e) => Err(e),
        }
    }

    /// Compacts the log: only the live records stay, in ascending order of
    /// their keys, and the index is built anew from them. No value changes,
    /// and the log then holds one record for each key that has a value. The
    /// count of mutations starts anew.
    pub fn compact(&mut self)
        requires
            old(self).wf(),
        ensures
            final(self).wf(),
            final(self).path() == old(self).path(),
            final(self).log_text() == compacted(old(self).log_text()),
            final(self)@ == old(self)@,
            final(self)@.dom().finite(),
            record_count(final(self).log_text()) == final(self)@.dom().len(),
            final(self).counted() == 0,
            final(self).saved_len() == 0,
    {
        proof {
            lemma_compacted(self.log@);
        }
        compact_log(&mut self.log, &mut self.index);
        self.mutations = 0;
        self.saved = 0;
    }
}

/// The index after one more command: a write points its key at the record,
/// a delete forgets its key.
spec fn index_after(index: Map<Seq<char>, Locator>, cmd: CommandView, locator: Locator) -> Map<
    Seq<char>,
    Locator,
> {
    match cmd {
        CommandView::Write { key, .. } => index.insert(key, locator),
        CommandView::Delete { key } => index.remove(key),
    }
}

/// An index of a log, brought up to date for a record that was appended, is
/// the index of the longer log; and the longer log leaves what the command
/// makes of what the log left.
proof fn lemma_index_follows(
    index: Map<Seq<char>, Locator>,
    text: Seq<u8>,
    cmd: CommandView,
    locator: Locator,
)
    requires
        faithful(cmd),
        indexes(index, text),
        locator@ == (Span {
            start: normalized(text).len() as int,
            len: record_bytes(cmd).len() as int,
        }),
    ensures
        record_count(appended(text, cmd)) == record_count(text) + 1,
        contents(appended(text, cmd)) == apply(contents(text), Some(cmd)),
        indexes(index_after(index, cmd, locator), appended(text, cmd)),
{
    let line = record_bytes(cmd);
    let longer = appended(text, cmd);
    let count = record_count(text) as int;
    lemma_replay_append(text, line);
    lemma_records_append(text, line);
    lemma_ordinals(text, record_count(text));
    let after = index_after(index, cmd, locator);
    assert(after.dom() =~= locations(longer).dom());
    assert forall|key: Seq<char>| #[trigger] after.contains_key(key) implies after[key]@
        == locations(longer)[key] by {
        assert(locations(longer).contains_key(key));
        let i = ordinals(longer)[key];
        if key == cmd.key() {
            assert(i == count);
        } else {
            assert(ordinals(text).contains_key(key));
            assert(i == ordinals(text)[key]);
            assert(index.contains_key(key));
            assert(index[key]@ == locations(text)[key]);
            assert(record(longer, i) == record(text, i));
        }
    }
}

} // verus!
