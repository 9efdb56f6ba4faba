//! The command log: an append-only text of records, one command each.

use vstd::prelude::*;
use vstd::slice::slice_subrange;
use crate::command::{decoded, faithful, record_bytes, view_of, Command};
use crate::error::CustomError;
use crate::text::{
    framed, joined, lemma_line_len_is, normalized, record, record_count, spans, spans_from, Span,
    NEWLINE,
};

verus! {

/// Where a record lies in the log: the offset of its first byte, and the
/// number of its bytes without the newline that ends it.
#[derive(Debug, Clone, Copy, PartialEq, Eq, Structural)]
pub struct Locator {
    pub offset: usize,
    pub len: usize,
}

impl View for Locator {
    type V = Span;

    open spec fn view(&self) -> Span {
        Span { start: self.offset as int, len: self.len as int }
    }
}

/// The spans that a list of locators stands for.
pub open spec fn spans_of(locators: Seq<Locator>) -> Seq<Span> {
    locators.map_values(|locator: Locator| locator@)
}

/// Whether `span` reaches no further than the end of `text`.
pub open spec fn within(text: Seq<u8>, span: Span) -> bool {
    span.start + span.len <= text.len()
}

/// Whether each of `spans` lies within `text`.
pub open spec fn all_within(text: Seq<u8>, spans: Seq<Span>) -> bool {
    forall|j: int| 0 <= j < spans.len() ==> within(text, #[trigger] spans[j])
}

/// Whether `entries` is what replaying the log `text` gives: every record in
/// order, each with its place and with the command that it holds.
pub open spec fn replayed(entries: Seq<(Locator, Option<Command>)>, text: Seq<u8>) -> bool {
    &&& entries.len() == record_count(text)
    &&& forall|i: int|
        0 <= i < entries.len() ==> (#[trigger] entries[i]).0@ == spans(text)[i] && view_of(
            entries[i].1,
        ) == decoded(record(text, i))
}

/// The log, as the bytes that its file holds or is to hold.
pub struct CommandLog {
    bytes: Vec<u8>,
}

impl View for CommandLog {
    type V = Seq<u8>;

    closed spec fn view(&self) -> Seq<u8> {
        self.bytes@
    }
}

impl CommandLog {
    /// A log without records.
    pub fn new() -> (log: CommandLog)
        ensures
            log@ == Seq::<u8>::empty(),
    {
        CommandLog { bytes: Vec::new() }
    }

    /// The log that a file of the given contents holds.
    pub fn from_bytes(bytes: Vec<u8>) -> (log: CommandLog)
        ensures
            log@ == bytes@,
    {
        CommandLog { bytes }
    }

    /// The bytes of the log.
    pub fn as_bytes(&self) -> (bytes: &[u8])
        ensures
            bytes@ == self@,
    {
        self.bytes.as_slice()
    }

    /// The number of bytes of the log.
    pub fn len(&self) -> (n: usize)
        ensures
            n == self@.len(),
    {
        self.bytes.len()
    }

    /// Appends the record of `cmd` and says where it lies. Where the last
    /// line of the log lacks its newline, as after a write that was cut
    /// short, the newline is supplied first, so that the record starts a
    /// line of its own. Fails, and leaves the log as it was, where the
    /// command is not faithful.
    pub fn append(&mut self, cmd: &Command) -> (r: Result<Locator, CustomError>)
        ensures
            match r {
                Ok(locator) => {
                    &&& faithful(cmd@)
                    &&& final(self)@ == normalized(old(self)@) + record_bytes(cmd@) + seq![NEWLINE]
                    &&& locator@ == Span {
                        start: normalized(old(self)@).len() as int,
                        len: record_bytes(cmd@).len() as int,
                    }
                },
                Err(e) => {
                    &&& e == CustomError::SerializationError
                    &&& !faithful(cmd@)
                    &&& final(self)@ == old(self)@
                },
            },
    {
        let mut line = match cmd.to_record() {
            Ok(line) => line,
            Err(e) => { return Err(e); },
        };
        let n = self.bytes.len();
        if n > 0 && self.bytes[n - 1] != NEWLINE {
            self.bytes.push(NEWLINE);
        }
        let locator = Locator { offset: self.bytes.len(), len: line.len() };
        self.bytes.append(&mut line);
        self.bytes.push(NEWLINE);
        Ok(locator)
    }

    /// Reads the command of the record at `locator`. Fails where the locator
    /// reaches past the end of the log or frames no command.
    pub fn read_at(&self, locator: Locator) -> (r: Result<Command, CustomError>)
        ensures
            match r {
                Ok(cmd) => {
                    &&& within(self@, locator@)
                    &&& decoded(framed(self@, locator@)) == Some(cmd@)
                },
                Err(e) => {
                    &&& e == CustomError::SerializationError
                    &&& (!within(self@, locator@) || decoded(framed(self@, locator@)) is None)
                },
            },
    {
        let n = self.bytes.len();
        if locator.len > n || locator.offset > n - locator.len {
            return Err(CustomError::SerializationError);
        }
        let line = slice_subrange(
            self.bytes.as_slice(),
            locator.offset,
            locator.offset + locator.len,
        );
        match Command::decode(line) {
            Some(cmd) => Ok(cmd),
            None => Err(CustomError::SerializationError),
        }
    }

    /// Every record of the log from the first to the last, each with its
    /// locator and with the command that it holds, if it holds one.
    pub fn replay(&self) -> (entries: Vec<(Locator, Option<Command>)>)
        ensures
            replayed(entries@, self@),
    {
        let ghost text = self@;
        let n = self.bytes.len();
        let mut entries: Vec<(Locator, Option<Command>)> = Vec::new();
        let mut start: usize = 0;
        proof {
            assert(text.skip(0) =~= text);
            assert(spans(text).skip(0) =~= spans(text));
        }
        while start < n
            invariant
                text == self@,
                n == text.len(),
                start <= n,
                entries@.len() <= spans(text).len(),
                spans(text).skip(entries@.len() as int) == spans_from(
                    text.skip(start as int),
                    start as int,
                ),
                forall|i: int|
                    0 <= i < entries@.len() ==> (#[trigger] entries@[i]).0@ == spans(text)[i]
                        && view_of(entries@[i].1) == decoded(record(text, i)),
            decreases n - start,
        {
            let mut end: usize = start;
            while end < n && self.bytes[end] != NEWLINE
                invariant
                    text == self@,
                    n == text.len(),
                    start <= end <= n,
                    forall|j: int| start <= j < end ==> text[j] != NEWLINE,
                decreases n - end,
            {
                end = end + 1;
            }
            let locator = Locator { offset: start, len: end - start };
            let line = slice_subrange(self.bytes.as_slice(), start, end);
            let cmd = Command::decode(line);
            let next = if end < n {
                end + 1
            } else {
                n
            };
            proof {
                let rest = text.skip(start as int);
                lemma_line_len_is(rest, end - start);
                let done = entries@.len() as int;
                assert(spans(text).skip(done)[0] == locator@);
                assert(spans(text).skip(done + 1) =~= spans(text).skip(done).skip(1));
                assert(line@ =~= record(text, done));
                if end < n {
                    assert(rest.skip(end - start + 1) =~= text.skip(next as int));
                } else {
                    assert(text.skip(next as int).len() == 0);
                    assert(spans_from(text.skip(next as int), next as int).len() == 0);
                    assert(spans(text).skip(done + 1) =~= spans_from(
                        text.skip(next as int),
                        next as int,
                    ));
                }
            }
            entries.push((locator, cmd));
            start = next;
        }
        proof {
            assert(spans(text).skip(entries@.len() as int).len() == 0);
        }
        entries
    }

    /// Replaces the log by the bytes at the given locators, in the order
    /// given, each piece ended by a newline. Fails, and leaves the log as it
    /// was, where a locator reaches past the end of the log.
    pub fn rewrite(&mut self, kept: &Vec<Locator>) -> (r: Result<(), CustomError>)
        ensures
            match r {
                Ok(()) => {
                    &&& all_within(old(self)@, spans_of(kept@))
                    &&& final(self)@ == joined(old(self)@, spans_of(kept@))
                },
                Err(e) => {
                    &&& e == CustomError::SerializationError
                    &&& !all_within(old(self)@, spans_of(kept@))
                    &&& final(self)@ == old(self)@
                },
            },
    {
        let ghost text = self@;
        let n = self.bytes.len();
        let mut fresh: Vec<u8> = Vec::new();
        let mut j: usize = 0;
        while j < kept.len()
            invariant
                text == self@,
                n == text.len(),
                j <= kept@.len(),
                all_within(text, spans_of(kept@).take(j as int)),
                fresh@ == joined(text, spans_of(kept@).take(j as int)),
            decreases kept@.len() - j,
        {
            let locator = kept[j];
            if locator.len > n || locator.offset > n - locator.len {
                assert(!within(text, spans_of(kept@)[j as int]));
                return Err(CustomError::SerializationError);
            }
            let line = slice_subrange(
                self.bytes.as_slice(),
                locator.offset,
                locator.offset + locator.len,
            );
            let ghost before = fresh@;
            fresh.extend_from_slice(line);
            fresh.push(NEWLINE);
            proof {
                let upto = spans_of(kept@).take(j + 1);
                assert(upto.drop_last() =~= spans_of(kept@).take(j as int));
                assert(upto.last() == locator@);
                assert(fresh@ =~= before + framed(text, locator@) + seq![NEWLINE]);
                assert forall|i: int| 0 <= i < upto.len() implies within(text, #[trigger] upto[i]) by {
                    if i < j {
                        assert(upto[i] == spans_of(kept@).take(j as int)[i]);
                    }
                }
            }
            j = j + 1;
        }
        proof {
            assert(spans_of(kept@).take(kept@.len() as int) =~= spans_of(kept@));
        }
        self.bytes = fresh;
        Ok(())
    }
}

} // verus!
