//! The compactor: rewrites a log so that it holds its live records only.

use vstd::prelude::*;
use vstd::utf8::encode_utf8;
use crate::command::{view_of, Command};
use crate::index::{indexes, Index};
use crate::log::{replayed, spans_of, within, CommandLog, Locator};
use crate::order::{before, comes_before};
use crate::replay::{
    compacted, inserted, is_live, key_at, lemma_compacted, lemma_inserted_at, lemma_ordinals,
    live_order_upto, ordinals, spans_at,
};
use crate::text::{lemma_records_well_framed, lemma_spans_ascend, record_count, spans};

verus! {

/// The ordinals that a list of indices into the replayed log stands for.
pub open spec fn ordinals_of(order: Seq<usize>) -> Seq<int> {
    order.map_values(|i: usize| i as int)
}

/// The bytes of the key of a replayed record; none where it holds no
/// command.
fn entry_key(entry: &(Locator, Option<Command>)) -> (key: &[u8])
    ensures
        key@ == match view_of(entry.1) {
            Some(cmd) => encode_utf8(cmd.key()),
            None => Seq::empty(),
        },
{
    match &entry.1 {
        Some(cmd) => cmd.key().as_str().as_bytes(),
        None => &[],
    }
}

/// Whether the record `i` of the replayed log is live: a write that the
/// index points at.
fn holds_a_value(
    entries: &Vec<(Locator, Option<Command>)>,
    index: &Index,
    i: usize,
    Ghost(text): Ghost<Seq<u8>>,
) -> (live: bool)
    requires
        replayed(entries@, text),
        indexes(index@, text),
        i < entries@.len(),
    ensures
        live == is_live(text, i as int),
{
    let entry = &entries[i];
    match &entry.1 {
        Some(Command::Write { key, .. }) => {
            match index.get(key.as_str()) {
                Some(locator) => {
                    proof {
                        lemma_ordinals(text, record_count(text));
                        let at = ordinals(text)[key@];
                        if at < i {
                            lemma_spans_ascend(text, at, i as int);
                        } else if at > i {
                            lemma_spans_ascend(text, i as int, at);
                        }
                    }
                    locator == entry.0
                },
                None => false,
            }
        },
        _ => false,
    }
}

/// Puts the record `i` into `order` at its place by key.
fn insert_by_key(
    entries: &Vec<(Locator, Option<Command>)>,
    order: &mut Vec<usize>,
    i: usize,
    Ghost(text): Ghost<Seq<u8>>,
)
    requires
        replayed(entries@, text),
        i < entries@.len(),
        forall|j: int| 0 <= j < old(order)@.len() ==> #[trigger] old(order)@[j] < entries@.len(),
    ensures
        ordinals_of(final(order)@) == inserted(text, ordinals_of(old(order)@), i as int),
        forall|j: int| 0 <= j < final(order)@.len() ==> #[trigger] final(order)@[j] < entries@.len(),
{
    let key = entry_key(&entries[i]);
    let mut place: usize = order.len();
    let mut found = false;
    while place > 0 && !found
        invariant
            replayed(entries@, text),
            i < entries@.len(),
            order@ == old(order)@,
            forall|j: int| 0 <= j < order@.len() ==> #[trigger] order@[j] < entries@.len(),
            key@ == key_at(text, i as int),
            place <= order@.len(),
            forall|j: int|
                place <= j < order@.len() ==> before(
                    key_at(text, i as int),
                    key_at(text, #[trigger] ordinals_of(order@)[j]),
                ),
            found ==> place > 0 && !before(
                key_at(text, i as int),
                key_at(text, ordinals_of(order@)[place - 1]),
            ),
        decreases place + (if found { 0int } else { 1int }),
    {
        let other = order[place - 1];
        if comes_before(key, entry_key(&entries[other])) {
            place = place - 1;
        } else {
            found = true;
        }
    }
    proof {
        lemma_inserted_at(text, ordinals_of(order@), i as int, place as int);
        assert(ordinals_of(order@.insert(place as int, i)) =~= ordinals_of(order@).insert(
            place as int,
            i as int,
        ));
    }
    order.insert(place, i);
}

/// Compacts a log and builds its index anew: the log is replaced by its
/// live records, in ascending order of their keys. Returns the number of
/// records that the log then holds.
pub fn compact_log(log: &mut CommandLog, index: &mut Index) -> (count: usize)
    requires
        indexes(old(index)@, old(log)@),
    ensures
        final(log)@ == compacted(old(log)@),
        indexes(final(index)@, final(log)@),
        count == record_count(final(log)@),
{
    let ghost text = log@;
    let entries = log.replay();
    let mut order: Vec<usize> = Vec::new();
    let mut i: usize = 0;
    while i < entries.len()
        invariant
            text == log@,
            replayed(entries@, text),
            indexes(index@, text),
            i <= entries@.len(),
            forall|j: int| 0 <= j < order@.len() ==> #[trigger] order@[j] < entries@.len(),
            ordinals_of(order@) == live_order_upto(text, i as nat),
        decreases entries@.len() - i,
    {
        if holds_a_value(&entries, index, i, Ghost(text)) {
            insert_by_key(&entries, &mut order, i, Ghost(text));
        }
        i = i + 1;
    }
    let mut kept: Vec<Locator> = Vec::new();
    let mut j: usize = 0;
    while j < order.len()
        invariant
            replayed(entries@, text),
            j <= order@.len(),
            forall|j: int| 0 <= j < order@.len() ==> #[trigger] order@[j] < entries@.len(),
            spans_of(kept@) == spans_at(text, ordinals_of(order@)).take(j as int),
        decreases order@.len() - j,
    {
        let entry = &entries[order[j]];
        let ghost before = kept@;
        kept.push(entry.0);
        proof {
            let all = spans_at(text, ordinals_of(order@));
            assert(entries@[order@[j as int] as int].0@ == spans(text)[order@[j as int] as int]);
            assert(all[j as int] == entry.0@);
            assert(spans_of(kept@) =~= spans_of(before).push(entry.0@));
            assert(all.take(j + 1) =~= all.take(j as int).push(all[j as int]));
        }
        j = j + 1;
    }
    proof {
        let all = spans_at(text, ordinals_of(order@));
        assert(all.take(all.len() as int) =~= all);
        assert forall|j: int| 0 <= j < all.len() implies within(text, #[trigger] all[j]) by {
            lemma_records_well_framed(text, ordinals_of(order@)[j]);
        }
        lemma_compacted(text);
    }
    // Every locator was taken from the log itself, so this cannot fail.
    let rewritten = log.rewrite(&kept);
    assert(rewritten is Ok);
    index.rebuild_from(log)
}

} // verus!
