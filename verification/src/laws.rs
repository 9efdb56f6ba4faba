//! What holds of the store whatever is done with it.
//!
//! The operations of the store are stated over the bytes of its log: a
//! mutation turns the log `text` into `logged(text, count, cmd)`, where
//! `count` mutations were counted before it, and what a key reads as is
//! `contents` of the log. The laws below are about these, so
//! they hold of every store and of every file that a store has written.

use vstd::prelude::*;
use crate::command::{decoded, faithful, record_bytes, CommandView};
use crate::replay::{
    apply, compacted, contents, contents_upto, in_key_order, lemma_compacted,
    lemma_compacted_again, lemma_replay_append,
};
use crate::shape::{
    closing, first_mark, lemma_closing_cut, lemma_first_mark_cut, opened, whole_object,
};
use crate::store::{appended, counted_after, due, logged, KvStore, COMPACT_FREQUENCY};
use crate::text::{record, record_count};

verus! {

/// A mutation is its command applied to what the log left, whether or not
/// the log was compacted on the way.
pub proof fn law_mutation(text: Seq<u8>, count: nat, cmd: CommandView)
    requires
        faithful(cmd),
    ensures
        contents(logged(text, count, cmd)) == apply(contents(text), Some(cmd)),
{
    lemma_replay_append(text, record_bytes(cmd));
    lemma_compacted(appended(text, cmd));
}

/// The count is the number of mutations, counted up to the frequency of
/// compaction and then anew, and compaction is due with the mutation that
/// brings it there: with every fiftieth.
pub proof fn law_count(count: nat)
    requires
        count < COMPACT_FREQUENCY,
    ensures
        counted_after(count) == (count + 1) % (COMPACT_FREQUENCY as nat),
        due(count + 1) <==> count + 1 == COMPACT_FREQUENCY,
{
}

/// After `set(key, value)`, the key reads as the value.
pub proof fn law_set_then_get(text: Seq<u8>, count: nat, key: Seq<char>, value: Seq<char>)
    requires
        faithful(CommandView::Write { key, value }),
    ensures
        contents(logged(text, count, CommandView::Write { key, value })).contains_key(key),
        contents(logged(text, count, CommandView::Write { key, value }))[key] == value,
{
    law_mutation(text, count, CommandView::Write { key, value });
}

/// After two writes of one key, the key reads as the second value. The
/// record of the first may still be in the log; nothing reads it.
pub proof fn law_last_write_wins(
    text: Seq<u8>,
    count: nat,
    key: Seq<char>,
    first: Seq<char>,
    second: Seq<char>,
)
    requires
        faithful(CommandView::Write { key, value: first }),
        faithful(CommandView::Write { key, value: second }),
    ensures
        ({
            let once = logged(text, count, CommandView::Write { key, value: first });
            let twice = logged(
                once,
                counted_after(count),
                CommandView::Write { key, value: second },
            );
            contents(twice).contains_key(key) && contents(twice)[key] == second
        }),
{
    let once = logged(text, count, CommandView::Write { key, value: first });
    law_mutation(text, count, CommandView::Write { key, value: first });
    law_mutation(once, counted_after(count), CommandView::Write { key, value: second });
}

/// Whether the record with the ordinal `i` of a log is a write of `key`.
pub open spec fn writes(text: Seq<u8>, i: int, key: Seq<char>) -> bool {
    decoded(record(text, i)) matches Some(CommandView::Write { key: written, .. }) && written
        == key
}

/// A key that the first `n` records of a log do not write has no value
/// after them.
proof fn lemma_never_written(text: Seq<u8>, n: nat, key: Seq<char>)
    requires
        forall|i: int| 0 <= i < n ==> !writes(text, i, key),
    ensures
        !contents_upto(text, n).contains_key(key),
    decreases n,
{
    if n > 0 {
        lemma_never_written(text, (n - 1) as nat, key);
        assert(!writes(text, n - 1, key));
    }
}

/// A key that was never set has no value. That holds of the empty log, and
/// of every log none of whose records writes the key.
pub proof fn law_missing_key(text: Seq<u8>, key: Seq<char>)
    requires
        forall|i: int| 0 <= i < record_count(text) ==> !writes(text, i, key),
    ensures
        !contents(text).contains_key(key),
        !contents(Seq::<u8>::empty()).contains_key(key),
{
    lemma_never_written(text, record_count(text), key);
    assert(record_count(Seq::<u8>::empty()) == 0);
}

/// After `remove(key)` the key has no value, so that a second `remove(key)`
/// finds nothing to remove.
pub proof fn law_remove(text: Seq<u8>, count: nat, key: Seq<char>)
    requires
        faithful(CommandView::Delete { key }),
    ensures
        !contents(logged(text, count, CommandView::Delete { key })).contains_key(key),
{
    law_mutation(text, count, CommandView::Delete { key });
}

/// A record that was cut short holds no command: what is left of a whole
/// object once its closing brace is gone, with or without more of its end,
/// is no whole object, so that replay passes over it.
pub proof fn law_cut_short(line: Seq<u8>, n: int)
    requires
        whole_object(line),
        0 <= n <= line.len(),
        closing(line, first_mark(line, 0) + 1, opened()) matches Some(end) && n < end,
    ensures
        !whole_object(line.take(n)),
        decoded(line.take(n)) is None,
{
    let start = first_mark(line, 0);
    lemma_first_mark_cut(line, n, 0);
    if start < n {
        lemma_closing_cut(line, n, start + 1, opened());
    }
}

/// A store is what its log makes it. Two stores whose logs hold the same
/// bytes, such as a store and the one that is opened later on what it wrote,
/// give every key the same value and find it at the same place.
pub proof fn law_reopen(store: KvStore, reopened: KvStore)
    requires
        store.wf(),
        reopened.wf(),
        reopened.log_text() == store.log_text(),
    ensures
        reopened@ == store@,
        reopened.index_map() == store.index_map(),
{
    assert(reopened.index_map() =~= store.index_map());
}

/// Compaction changes the value of no key. The compacted log holds as many
/// records as there are keys with a value, in ascending order of the keys.
pub proof fn law_compaction(text: Seq<u8>)
    ensures
        contents(compacted(text)) == contents(text),
        contents(text).dom().finite(),
        record_count(compacted(text)) == contents(text).dom().len(),
        in_key_order(compacted(text)),
{
    lemma_compacted(text);
}

/// Compaction of a compacted log changes nothing: one contents has one
/// compacted log, whatever the log was that left it.
pub proof fn law_compaction_is_final(text: Seq<u8>)
    ensures
        compacted(compacted(text)) == compacted(text),
{
    lemma_compacted_again(text);
}

} // verus!
