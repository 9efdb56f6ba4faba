//! What a log means: the value that its commands leave for each key, and the
//! record in which each of these values lies.
//!
//! Both are read off the log alone, record by record from the first to the
//! last. A record that holds no command changes nothing.

use vstd::prelude::*;
use vstd::utf8::encode_utf8;
use crate::command::{decoded, CommandView};
use crate::order::{before, lemma_before_between, lemma_before_one_way};
use crate::text::{
    framed, joined, lemma_joined, lemma_joined_whole, lemma_records_append,
    lemma_records_well_framed, newline_free, normalized, record, record_count, spans, terminated, well_framed, Span, NEWLINE,
};

verus! {

/// The values after one more command: a write gives its key a value, a
/// delete takes the value of its key away.
pub open spec fn apply(state: Map<Seq<char>, Seq<char>>, cmd: Option<CommandView>) -> Map<
    Seq<char>,
    Seq<char>,
> {
    match cmd {
        Some(CommandView::Write { key, value }) => state.insert(key, value),
        Some(CommandView::Delete { key }) => state.remove(key),
        None => state,
    }
}

/// The values that the first `n` records of a log leave.
pub open spec fn contents_upto(text: Seq<u8>, n: nat) -> Map<Seq<char>, Seq<char>>
    decreases n,
{
    if n == 0 {
        Map::empty()
    } else {
        apply(contents_upto(text, (n - 1) as nat), decoded(record(text, n - 1)))
    }
}

/// The value of each key that has one, after all the commands of a log.
pub open spec fn contents(text: Seq<u8>) -> Map<Seq<char>, Seq<char>> {
    contents_upto(text, record_count(text))
}

/// The index after one more command, the record with the ordinal `i`: a
/// write points its key at the record, a delete forgets its key.
pub open spec fn place(index: Map<Seq<char>, int>, i: int, cmd: Option<CommandView>) -> Map<
    Seq<char>,
    int,
> {
    match cmd {
        Some(CommandView::Write { key, .. }) => index.insert(key, i),
        Some(CommandView::Delete { key }) => index.remove(key),
        None => index,
    }
}

/// For each key that has a value after the first `n` records, the ordinal of
/// the record that gave it.
pub open spec fn ordinals_upto(text: Seq<u8>, n: nat) -> Map<Seq<char>, int>
    decreases n,
{
    if n == 0 {
        Map::empty()
    } else {
        place(ordinals_upto(text, (n - 1) as nat), n - 1, decoded(record(text, n - 1)))
    }
}

/// For each key that has a value, the ordinal of the record that holds it.
pub open spec fn ordinals(text: Seq<u8>) -> Map<Seq<char>, int> {
    ordinals_upto(text, record_count(text))
}

/// For each key that has a value, where the record that holds it lies: what
/// an index of the log is to hold.
pub open spec fn locations(text: Seq<u8>) -> Map<Seq<char>, Span> {
    Map::new(
        |key: Seq<char>| ordinals(text).contains_key(key),
        |key: Seq<char>| spans(text)[ordinals(text)[key]],
    )
}

/// Whether the record with the ordinal `i` holds the value of a key.
pub open spec fn is_live(text: Seq<u8>, i: int) -> bool {
    &&& decoded(record(text, i)) matches Some(CommandView::Write { key, .. })
    &&& ordinals(text).contains_key(key)
    &&& ordinals(text)[key] == i
}

/// The key of the record with the ordinal `i`, as the bytes of its UTF-8
/// form; no bytes where the record holds no command.
pub open spec fn key_at(text: Seq<u8>, i: int) -> Seq<u8> {
    match decoded(record(text, i)) {
        Some(cmd) => encode_utf8(cmd.key()),
        None => Seq::empty(),
    }
}

/// Whether the keys of the records named by `order` never descend.
pub open spec fn ascending(text: Seq<u8>, order: Seq<int>) -> bool {
    forall|a: int, b: int|
        0 <= a < b < order.len() ==> !before(
            key_at(text, #[trigger] order[b]),
            key_at(text, #[trigger] order[a]),
        )
}

/// Whether the keys of the records of a log never descend from one record
/// to the next.
pub open spec fn in_key_order(text: Seq<u8>) -> bool {
    forall|a: int, b: int|
        0 <= a < b < record_count(text) ==> !before(
            #[trigger] key_at(text, b),
            #[trigger] key_at(text, a),
        )
}

/// `sorted` with the record `i` put in behind the last record whose key
/// does not come after its own.
pub open spec fn inserted(text: Seq<u8>, sorted: Seq<int>, i: int) -> Seq<int>
    decreases sorted.len(),
{
    if sorted.len() == 0 {
        seq![i]
    } else if before(key_at(text, i), key_at(text, sorted.last())) {
        inserted(text, sorted.drop_last(), i).push(sorted.last())
    } else {
        sorted.push(i)
    }
}

/// The ordinals of the live records among the first `n`, in ascending order
/// of their keys.
pub open spec fn live_order_upto(text: Seq<u8>, n: nat) -> Seq<int>
    decreases n,
{
    if n == 0 {
        Seq::empty()
    } else if is_live(text, n - 1) {
        inserted(text, live_order_upto(text, (n - 1) as nat), n - 1)
    } else {
        live_order_upto(text, (n - 1) as nat)
    }
}

/// The ordinals of the live records of a log, in ascending order of their
/// keys.
pub open spec fn live_order(text: Seq<u8>) -> Seq<int> {
    live_order_upto(text, record_count(text))
}

/// Where the records with the given ordinals lie.
pub open spec fn spans_at(text: Seq<u8>, order: Seq<int>) -> Seq<Span> {
    order.map_values(|i: int| spans(text)[i])
}

/// Where the live records of a log lie, in ascending order of their keys.
pub open spec fn live_spans(text: Seq<u8>) -> Seq<Span> {
    spans_at(text, live_order(text))
}

/// The log after compaction: its live records and nothing else, in
/// ascending order of their keys.
pub open spec fn compacted(text: Seq<u8>) -> Seq<u8> {
    joined(text, live_spans(text))
}

/// The key of a record that holds a value: it has a value after the first
/// `n` records, and the record that holds it is a write of that value, among
/// those `n`.
pub proof fn lemma_ordinals(text: Seq<u8>, n: nat)
    ensures
        ordinals_upto(text, n).dom() == contents_upto(text, n).dom(),
        contents_upto(text, n).dom().finite(),
        forall|key: Seq<char>| #[trigger]
            ordinals_upto(text, n).contains_key(key) ==> {
                let i = ordinals_upto(text, n)[key];
                &&& 0 <= i < n
                &&& decoded(record(text, i)) == Some(
                    CommandView::Write { key, value: contents_upto(text, n)[key] },
                )
            },
    decreases n,
{
    if n > 0 {
        lemma_ordinals(text, (n - 1) as nat);
        assert(ordinals_upto(text, n).dom() =~= contents_upto(text, n).dom());
    } else {
        assert(ordinals_upto(text, n).dom() =~= contents_upto(text, n).dom());
    }
}

/// Two logs that agree on their first `n` records leave the same after them.
pub proof fn lemma_same_records(a: Seq<u8>, b: Seq<u8>, n: nat)
    requires
        forall|i: int| 0 <= i < n ==> #[trigger] record(a, i) == record(b, i),
    ensures
        contents_upto(a, n) == contents_upto(b, n),
        ordinals_upto(a, n) == ordinals_upto(b, n),
    decreases n,
{
    if n > 0 {
        lemma_same_records(a, b, (n - 1) as nat);
    }
}

/// Appending a line to a log is applying the command that the line holds.
pub proof fn lemma_replay_append(text: Seq<u8>, line: Seq<u8>)
    requires
        newline_free(line),
    ensures
        contents(normalized(text) + line + seq![NEWLINE]) == apply(contents(text), decoded(line)),
        ordinals(normalized(text) + line + seq![NEWLINE]) == place(
            ordinals(text),
            record_count(text) as int,
            decoded(line),
        ),
{
    let longer = normalized(text) + line + seq![NEWLINE];
    lemma_records_append(text, line);
    lemma_same_records(longer, text, record_count(text));
}

/// The keys whose value lies in one of the first `n` records.
pub open spec fn settled(text: Seq<u8>, n: nat) -> Set<Seq<char>> {
    Set::new(|key: Seq<char>| ordinals(text).contains_key(key) && ordinals(text)[key] < n)
}

/// The keys whose value lies in one of the records named by `order`.
pub open spec fn keys_in(text: Seq<u8>, order: Seq<int>) -> Set<Seq<char>> {
    Set::new(
        |key: Seq<char>| ordinals(text).contains_key(key) && order.contains(ordinals(text)[key]),
    )
}

/// Insertion adds the one record and moves none out.
pub proof fn lemma_inserted(text: Seq<u8>, sorted: Seq<int>, i: int)
    ensures
        inserted(text, sorted, i).len() == sorted.len() + 1,
        inserted(text, sorted, i).contains(i),
        forall|x: int| sorted.contains(x) ==> inserted(text, sorted, i).contains(x),
        forall|j: int|
            0 <= j < inserted(text, sorted, i).len() ==> {
                let x = #[trigger] inserted(text, sorted, i)[j];
                x == i || sorted.contains(x)
            },
    decreases sorted.len(),
{
    let all = inserted(text, sorted, i);
    if sorted.len() == 0 {
        assert(all[0] == i);
    } else if before(key_at(text, i), key_at(text, sorted.last())) {
        let front = sorted.drop_last();
        let inner = inserted(text, front, i);
        lemma_inserted(text, front, i);
        let at = choose|j: int| 0 <= j < inner.len() && inner[j] == i;
        assert(all[at] == i);
        assert forall|x: int| sorted.contains(x) implies all.contains(x) by {
            let j = choose|j: int| 0 <= j < sorted.len() && sorted[j] == x;
            if j == sorted.len() - 1 {
                assert(all[all.len() - 1] == x);
            } else {
                assert(front[j] == x);
                assert(front.contains(x));
                let k = choose|k: int| 0 <= k < inner.len() && inner[k] == x;
                assert(all[k] == x);
            }
        }
        assert forall|j: int| 0 <= j < all.len() implies {
            let x = #[trigger] all[j];
            x == i || sorted.contains(x)
        } by {
            let x = all[j];
            if j == all.len() - 1 {
                assert(sorted[sorted.len() - 1] == x);
            } else {
                assert(inner[j] == x);
                if x != i {
                    let k = choose|k: int| 0 <= k < front.len() && front[k] == x;
                    assert(sorted[k] == x);
                }
            }
        }
    } else {
        assert(all[all.len() - 1] == i);
        assert forall|x: int| sorted.contains(x) implies all.contains(x) by {
            let j = choose|j: int| 0 <= j < sorted.len() && sorted[j] == x;
            assert(all[j] == x);
        }
        assert forall|j: int| 0 <= j < all.len() implies {
            let x = #[trigger] all[j];
            x == i || sorted.contains(x)
        } by {
            if j < sorted.len() {
                assert(sorted[j] == all[j]);
            }
        }
    }
}

/// Insertion of a record that is not there yet brings no record in twice.
pub proof fn lemma_inserted_distinct(text: Seq<u8>, sorted: Seq<int>, i: int)
    requires
        sorted.no_duplicates(),
        !sorted.contains(i),
    ensures
        inserted(text, sorted, i).no_duplicates(),
    decreases sorted.len(),
{
    let all = inserted(text, sorted, i);
    if sorted.len() == 0 {
    } else if before(key_at(text, i), key_at(text, sorted.last())) {
        let front = sorted.drop_last();
        let last = sorted.last();
        let inner = inserted(text, front, i);
        assert(front.no_duplicates()) by {
            assert forall|a: int, b: int|
                0 <= a < front.len() && 0 <= b < front.len() && a != b implies front[a]
                != front[b] by {
                assert(front[a] == sorted[a] && front[b] == sorted[b]);
            }
        }
        assert(!front.contains(i)) by {
            if front.contains(i) {
                let j = choose|j: int| 0 <= j < front.len() && front[j] == i;
                assert(sorted[j] == i);
            }
        }
        lemma_inserted_distinct(text, front, i);
        lemma_inserted(text, front, i);
        assert forall|a: int, b: int|
            0 <= a < all.len() && 0 <= b < all.len() && a != b implies all[a] != all[b] by {
            let top = all.len() - 1;
            assert(sorted[sorted.len() - 1] == last);
            if a < top && b < top {
                assert(all[a] == inner[a] && all[b] == inner[b]);
            } else {
                let other = if a == top { b } else { a };
                let x = inner[other];
                assert(all[other] == x);
                if x != i {
                    let k = choose|k: int| 0 <= k < front.len() && front[k] == x;
                    assert(sorted[k] == x);
                }
            }
        }
    } else {
        assert forall|a: int, b: int|
            0 <= a < all.len() && 0 <= b < all.len() && a != b implies all[a] != all[b] by {
            let top = all.len() - 1;
            if a < top && b < top {
                assert(all[a] == sorted[a] && all[b] == sorted[b]);
            } else {
                let other = if a == top { b } else { a };
                assert(all[other] == sorted[other]);
            }
        }
    }
}

/// Insertion keeps the keys from descending.
pub proof fn lemma_inserted_ascending(text: Seq<u8>, sorted: Seq<int>, i: int)
    requires
        ascending(text, sorted),
    ensures
        ascending(text, inserted(text, sorted, i)),
    decreases sorted.len(),
{
    let all = inserted(text, sorted, i);
    let key = key_at(text, i);
    if sorted.len() == 0 {
    } else if before(key, key_at(text, sorted.last())) {
        let front = sorted.drop_last();
        let last = sorted.last();
        let inner = inserted(text, front, i);
        assert(ascending(text, front)) by {
            assert forall|a: int, b: int| 0 <= a < b < front.len() implies !before(
                key_at(text, #[trigger] front[b]),
                key_at(text, #[trigger] front[a]),
            ) by {
                assert(front[a] == sorted[a] && front[b] == sorted[b]);
            }
        }
        lemma_inserted_ascending(text, front, i);
        lemma_inserted(text, front, i);
        assert forall|a: int, b: int| 0 <= a < b < all.len() implies !before(
            key_at(text, #[trigger] all[b]),
            key_at(text, #[trigger] all[a]),
        ) by {
            if b < all.len() - 1 {
                assert(all[a] == inner[a] && all[b] == inner[b]);
            } else {
                let x = inner[a];
                assert(all[a] == x);
                if x == i {
                    lemma_before_one_way(key, key_at(text, last));
                } else {
                    let k = choose|k: int| 0 <= k < front.len() && front[k] == x;
                    assert(sorted[k] == x);
                    assert(sorted[sorted.len() - 1] == last);
                }
            }
        }
    } else {
        let last = sorted.last();
        assert forall|a: int, b: int| 0 <= a < b < all.len() implies !before(
            key_at(text, #[trigger] all[b]),
            key_at(text, #[trigger] all[a]),
        ) by {
            if b < all.len() - 1 {
                assert(all[a] == sorted[a] && all[b] == sorted[b]);
            } else {
                assert(all[a] == sorted[a]);
                if before(key, key_at(text, sorted[a])) {
                    lemma_before_between(key, key_at(text, last), key_at(text, sorted[a]));
                    assert(sorted[sorted.len() - 1] == last);
                }
            }
        }
    }
}

/// Insertion puts the record at the place in front of which no key comes
/// after its own, and behind which every key does.
pub proof fn lemma_inserted_at(text: Seq<u8>, sorted: Seq<int>, i: int, place: int)
    requires
        0 <= place <= sorted.len(),
        forall|j: int|
            place <= j < sorted.len() ==> before(key_at(text, i), key_at(text, #[trigger] sorted[j])),
        place > 0 ==> !before(key_at(text, i), key_at(text, sorted[place - 1])),
    ensures
        inserted(text, sorted, i) == sorted.insert(place, i),
    decreases sorted.len() - place,
{
    if place == sorted.len() {
        assert(inserted(text, sorted, i) =~= sorted.insert(place, i));
    } else {
        let front = sorted.drop_last();
        assert(before(key_at(text, i), key_at(text, sorted[sorted.len() - 1])));
        assert forall|j: int| place <= j < front.len() implies before(
            key_at(text, i),
            key_at(text, #[trigger] front[j]),
        ) by {
            assert(front[j] == sorted[j]);
        }
        if place > 0 {
            assert(front[place - 1] == sorted[place - 1]);
        }
        lemma_inserted_at(text, front, i, place);
        assert(front.insert(place, i).push(sorted.last()) =~= sorted.insert(place, i));
    }
}

/// Live records, joined into a log of their own in whatever order, leave
/// the values of their keys, and nothing else.
pub proof fn lemma_selected(text: Seq<u8>, order: Seq<int>)
    requires
        forall|j: int|
            0 <= j < order.len() ==> 0 <= #[trigger] order[j] < record_count(text) && is_live(
                text,
                order[j],
            ),
    ensures
        terminated(joined(text, spans_at(text, order))),
        record_count(joined(text, spans_at(text, order))) == order.len(),
        contents(joined(text, spans_at(text, order))) == contents(text).restrict(
            keys_in(text, order),
        ),
    decreases order.len(),
{
    let kept = spans_at(text, order);
    assert forall|j: int| 0 <= j < kept.len() implies well_framed(text, #[trigger] kept[j]) by {
        lemma_records_well_framed(text, order[j]);
    }
    lemma_joined(text, kept);
    lemma_ordinals(text, record_count(text));
    if order.len() == 0 {
        assert(keys_in(text, order) =~= Set::empty());
        assert(contents(text).restrict(keys_in(text, order)) =~= Map::empty());
    } else {
        let front = order.drop_last();
        let i = order.last();
        assert forall|j: int| 0 <= j < front.len() implies 0 <= #[trigger] front[j] < record_count(
            text,
        ) && is_live(text, front[j]) by {
            assert(front[j] == order[j]);
        }
        lemma_selected(text, front);
        assert(kept.drop_last() =~= spans_at(text, front));
        let line = record(text, i);
        let key = decoded(line)->0.key();
        assert(is_live(text, i));
        lemma_records_well_framed(text, i);
        lemma_replay_append(joined(text, spans_at(text, front)), line);
        assert(keys_in(text, order) =~= keys_in(text, front).insert(key)) by {
            assert forall|k: Seq<char>| keys_in(text, order).contains(k) implies keys_in(
                text,
                front,
            ).insert(key).contains(k) by {
                let at = ordinals(text)[k];
                let j = choose|j: int| 0 <= j < order.len() && order[j] == at;
                if j < front.len() {
                    assert(front[j] == at);
                }
            }
            assert forall|k: Seq<char>| keys_in(text, front).insert(key).contains(
                k,
            ) implies keys_in(text, order).contains(k) by {
                if k == key {
                    assert(order[order.len() - 1] == i);
                } else {
                    let at = ordinals(text)[k];
                    let j = choose|j: int| 0 <= j < front.len() && front[j] == at;
                    assert(order[j] == at);
                }
            }
        }
        assert(contents(joined(text, kept)) =~= contents(text).restrict(keys_in(text, order)));
    }
}

/// The live records among the first `n`, in ascending order of their keys:
/// they are live, none is missing, their keys do not descend, and there is
/// one for each key that is settled by then.
pub proof fn lemma_live_order_upto(text: Seq<u8>, n: nat)
    requires
        n <= record_count(text),
    ensures
        forall|j: int|
            0 <= j < live_order_upto(text, n).len() ==> 0 <= #[trigger] live_order_upto(text, n)[j]
                < n && is_live(text, live_order_upto(text, n)[j]),
        forall|i: int| 0 <= i < n && is_live(text, i) ==> live_order_upto(text, n).contains(i),
        ascending(text, live_order_upto(text, n)),
        live_order_upto(text, n).no_duplicates(),
        settled(text, n).finite(),
        settled(text, n).len() == live_order_upto(text, n).len(),
    decreases n,
{
    lemma_ordinals(text, record_count(text));
    if n == 0 {
        assert(settled(text, n) =~= Set::empty());
    } else {
        let m = (n - 1) as nat;
        let front = live_order_upto(text, m);
        lemma_live_order_upto(text, m);
        if is_live(text, n - 1) {
            let key = decoded(record(text, n - 1))->0.key();
            lemma_inserted(text, front, n - 1);
            lemma_inserted_ascending(text, front, n - 1);
            assert(!front.contains(n - 1)) by {
                if front.contains(n - 1) {
                    let j = choose|j: int| 0 <= j < front.len() && front[j] == n - 1;
                    assert(front[j] < m);
                }
            }
            lemma_inserted_distinct(text, front, n - 1);
            assert(settled(text, n) =~= settled(text, m).insert(key));
        } else {
            assert(settled(text, n) =~= settled(text, m));
        }
    }
}

/// Compaction changes no value, leaves one record for each key that has a
/// value, and leaves the records in ascending order of their keys.
pub proof fn lemma_compacted(text: Seq<u8>)
    ensures
        terminated(compacted(text)),
        contents(compacted(text)) == contents(text),
        contents(text).dom().finite(),
        record_count(compacted(text)) == contents(text).dom().len(),
        record_count(compacted(text)) == live_order(text).len(),
        forall|j: int|
            0 <= j < live_order(text).len() ==> #[trigger] record(compacted(text), j) == record(
                text,
                live_order(text)[j],
            ),
        ascending(text, live_order(text)),
        in_key_order(compacted(text)),
{
    let full = record_count(text);
    let order = live_order(text);
    lemma_ordinals(text, full);
    lemma_live_order_upto(text, full);
    lemma_selected(text, order);
    assert forall|key: Seq<char>| contents(text).dom().contains(key) implies keys_in(
        text,
        order,
    ).contains(key) by {
        assert(ordinals(text).contains_key(key));
        assert(is_live(text, ordinals(text)[key]));
    }
    assert(keys_in(text, order) =~= contents(text).dom());
    assert(settled(text, full) =~= contents(text).dom());
    assert(contents(text).restrict(keys_in(text, order)) =~= contents(text));
    let kept = spans_at(text, order);
    assert forall|j: int| 0 <= j < kept.len() implies well_framed(text, #[trigger] kept[j]) by {
        lemma_records_well_framed(text, order[j]);
    }
    lemma_joined(text, kept);
    let fresh = compacted(text);
    assert forall|a: int, b: int| 0 <= a < b < record_count(fresh) implies !before(
        #[trigger] key_at(fresh, b),
        #[trigger] key_at(fresh, a),
    ) by {
        assert(record(fresh, a) == framed(text, kept[a]));
        assert(record(fresh, b) == framed(text, kept[b]));
        assert(key_at(fresh, a) == key_at(text, order[a]));
        assert(key_at(fresh, b) == key_at(text, order[b]));
    }
}

/// The key that the record with the ordinal `i` writes.
pub open spec fn written(text: Seq<u8>, i: int) -> Seq<char> {
    decoded(record(text, i))->0.key()
}

/// Whether every record of a log is a write, and no two write one key.
pub open spec fn all_live(text: Seq<u8>) -> bool {
    &&& forall|i: int|
        0 <= i < record_count(text) ==> #[trigger] decoded(record(text, i)) is Some && decoded(
            record(text, i),
        )->0 is Write
    &&& forall|a: int, b: int|
        0 <= a < b < record_count(text) ==> #[trigger] written(text, a) != #[trigger] written(
            text,
            b,
        )
}

/// In a log of writes of different keys, each key is found in its record.
proof fn lemma_ordinals_of_writes(text: Seq<u8>, n: nat)
    requires
        all_live(text),
        n <= record_count(text),
    ensures
        forall|i: int|
            0 <= i < n ==> ordinals_upto(text, n).contains_key(#[trigger] written(text, i))
                && ordinals_upto(text, n)[written(text, i)] == i,
    decreases n,
{
    if n > 0 {
        lemma_ordinals_of_writes(text, (n - 1) as nat);
        assert(decoded(record(text, n - 1)) is Some);
        assert forall|i: int| 0 <= i < n implies ordinals_upto(text, n).contains_key(
            #[trigger] written(text, i),
        ) && ordinals_upto(text, n)[written(text, i)] == i by {
            if i < n - 1 {
                assert(written(text, i) != written(text, n - 1));
            }
        }
    }
}

/// In a log of writes of different keys, in ascending order of the keys,
/// the live records in ascending order of their keys are all of its
/// records, in the order of the log.
proof fn lemma_live_order_of_writes(text: Seq<u8>, n: nat)
    requires
        all_live(text),
        in_key_order(text),
        n <= record_count(text),
    ensures
        live_order_upto(text, n) == Seq::new(n, |i: int| i),
    decreases n,
{
    if n > 0 {
        let m = (n - 1) as nat;
        lemma_live_order_of_writes(text, m);
        lemma_ordinals_of_writes(text, record_count(text));
        assert(decoded(record(text, n - 1)) is Some);
        assert(ordinals(text)[written(text, n - 1)] == n - 1);
        assert(is_live(text, n - 1));
        let front = Seq::new(m, |i: int| i);
        if m > 0 {
            assert(front.last() == m - 1);
            assert(!before(key_at(text, n - 1), key_at(text, m - 1)));
        }
        assert(inserted(text, front, n - 1) =~= Seq::new(n, |i: int| i));
    }
}

/// A compacted log is compacted already: compaction leaves it as it is.
pub proof fn lemma_compacted_again(text: Seq<u8>)
    ensures
        compacted(compacted(text)) == compacted(text),
{
    let fresh = compacted(text);
    let order = live_order(text);
    let full = record_count(text);
    lemma_compacted(text);
    lemma_live_order_upto(text, full);
    lemma_ordinals(text, full);
    let count = record_count(fresh);
    assert(all_live(fresh)) by {
        assert forall|a: int, b: int| 0 <= a < b < count implies #[trigger] written(fresh, a)
            != #[trigger] written(fresh, b) by {
            assert(record(fresh, a) == record(text, order[a]));
            assert(record(fresh, b) == record(text, order[b]));
            assert(is_live(text, order[a]) && is_live(text, order[b]));
            assert(order[a] != order[b]);
        }
        assert forall|i: int| 0 <= i < count implies #[trigger] decoded(record(fresh, i)) is Some
            && decoded(record(fresh, i))->0 is Write by {
            assert(record(fresh, i) == record(text, order[i]));
            assert(is_live(text, order[i]));
        }
    }
    lemma_live_order_of_writes(fresh, count);
    assert(live_spans(fresh) =~= spans(fresh));
    let kept = live_spans(text);
    assert forall|j: int| 0 <= j < kept.len() implies well_framed(text, #[trigger] kept[j]) by {
        lemma_records_well_framed(text, order[j]);
    }
    lemma_joined_whole(text, kept);
}

} // verus!
