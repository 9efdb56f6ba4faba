//! Lines of a log: where each record of a text starts and ends.

use vstd::prelude::*;

verus! {

/// The byte that ends every record.
pub const NEWLINE: u8 = 10;

/// A text is terminated when it is empty or its last byte ends a record.
pub open spec fn terminated(text: Seq<u8>) -> bool {
    text.len() == 0 || text.last() == NEWLINE
}

/// The text with the newline supplied that its last line may lack.
pub open spec fn normalized(text: Seq<u8>) -> Seq<u8> {
    if terminated(text) {
        text
    } else {
        text.push(NEWLINE)
    }
}

/// Whether no byte of `line` is a newline.
pub open spec fn newline_free(line: Seq<u8>) -> bool {
    forall|j: int| 0 <= j < line.len() ==> line[j] != NEWLINE
}

/// The number of bytes before the first newline of `text`; the whole length
/// where it has none.
pub open spec fn line_len(text: Seq<u8>) -> nat
    decreases text.len(),
{
    if text.len() == 0 || text[0] == NEWLINE {
        0
    } else {
        1 + line_len(text.skip(1))
    }
}

/// Where a record lies in a text: the offset of its first byte and the number
/// of its bytes, the newline that ends it not counted.
pub struct Span {
    pub start: int,
    pub len: int,
}

/// The records of `text` in order, for a text whose first byte has the offset
/// `base` in the log it was cut from.
pub open spec fn spans_from(text: Seq<u8>, base: int) -> Seq<Span>
    decreases text.len(),
{
    if text.len() == 0 {
        Seq::empty()
    } else {
        let n = line_len(text) as int;
        let first = Span { start: base, len: n };
        if n >= text.len() {
            seq![first]
        } else {
            seq![first] + spans_from(text.skip(n + 1), base + n + 1)
        }
    }
}

/// The records of a log, in the order in which they were appended.
pub open spec fn spans(text: Seq<u8>) -> Seq<Span> {
    spans_from(text, 0)
}

/// The number of records of a log.
pub open spec fn record_count(text: Seq<u8>) -> nat {
    spans(text).len()
}

/// The bytes that `span` frames in `text`.
pub open spec fn framed(text: Seq<u8>, span: Span) -> Seq<u8> {
    text.subrange(span.start, span.start + span.len)
}

/// The bytes of the record with the ordinal `i`.
pub open spec fn record(text: Seq<u8>, i: int) -> Seq<u8> {
    framed(text, spans(text)[i])
}

/// Whether `span` lies inside `text` and frames no newline.
pub open spec fn well_framed(text: Seq<u8>, span: Span) -> bool {
    &&& 0 <= span.start
    &&& 0 <= span.len
    &&& span.start + span.len <= text.len()
    &&& newline_free(framed(text, span))
}

/// The log that holds, one after the other, the bytes that each span of
/// `kept` frames in `text`, each ended by a newline.
pub open spec fn joined(text: Seq<u8>, kept: Seq<Span>) -> Seq<u8>
    decreases kept.len(),
{
    if kept.len() == 0 {
        Seq::empty()
    } else {
        joined(text, kept.drop_last()) + framed(text, kept.last()) + seq![NEWLINE]
    }
}

/// `line_len` stops at the first newline and not before.
pub proof fn lemma_line_len(text: Seq<u8>)
    ensures
        line_len(text) <= text.len(),
        newline_free(text.take(line_len(text) as int)),
        line_len(text) < text.len() ==> text[line_len(text) as int] == NEWLINE,
    decreases text.len(),
{
    if text.len() == 0 || text[0] == NEWLINE {
    } else {
        let rest = text.skip(1);
        lemma_line_len(rest);
        let n = line_len(rest) as int;
        let head = text.take(n + 1);
        assert forall|j: int| 0 <= j < head.len() implies head[j] != NEWLINE by {
            if j > 0 {
                assert(rest.take(n)[j - 1] == text[j]);
            }
        }
    }
}

/// A newline-free prefix that stops at a newline, or at the end, is the
/// first line.
pub proof fn lemma_line_len_is(text: Seq<u8>, n: int)
    requires
        0 <= n <= text.len(),
        forall|j: int| 0 <= j < n ==> text[j] != NEWLINE,
        n == text.len() || text[n] == NEWLINE,
    ensures
        line_len(text) == n,
    decreases n,
{
    if n > 0 {
        lemma_line_len_is(text.skip(1), n - 1);
    }
}

/// A terminated text that is not empty has a newline to end its first line.
pub proof fn lemma_first_line_ends(text: Seq<u8>)
    requires
        terminated(text),
        text.len() > 0,
    ensures
        line_len(text) < text.len(),
        text[line_len(text) as int] == NEWLINE,
        terminated(text.skip(line_len(text) as int + 1)),
{
    lemma_line_len(text);
    let n = line_len(text) as int;
    if n == text.len() {
        assert(text.take(n)[n - 1] == text.last());
    }
}

/// What holds of the record with the ordinal `i` of a text: it lies inside
/// the text, it holds no newline, and the next record starts right behind
/// the byte that follows it.
pub proof fn lemma_span_at(text: Seq<u8>, base: int, i: int)
    requires
        0 <= i < spans_from(text, base).len(),
    ensures
        ({
            let all = spans_from(text, base);
            let s = all[i];
            &&& base <= s.start
            &&& 0 <= s.len
            &&& s.start - base + s.len <= text.len()
            &&& newline_free(text.subrange(s.start - base, s.start - base + s.len))
            &&& i + 1 < all.len() ==> all[i + 1].start == s.start + s.len + 1
        }),
    decreases text.len(),
{
    let n = line_len(text) as int;
    lemma_line_len(text);
    if i == 0 {
        assert(text.subrange(0, n) =~= text.take(n));
        if n < text.len() && 1 < spans_from(text, base).len() {
            let rest = text.skip(n + 1);
            assert(spans_from(text, base)[1] == spans_from(rest, base + n + 1)[0]);
        }
    } else {
        let rest = text.skip(n + 1);
        let tail = spans_from(rest, base + n + 1);
        assert(spans_from(text, base)[i] == tail[i - 1]);
        lemma_span_at(rest, base + n + 1, i - 1);
        let s = tail[i - 1];
        assert(rest.subrange(s.start - (base + n + 1), s.start - (base + n + 1) + s.len)
            =~= text.subrange(s.start - base, s.start - base + s.len));
        if i + 1 < spans_from(text, base).len() {
            assert(spans_from(text, base)[i + 1] == tail[i]);
        }
    }
}

/// Records start at growing offsets, so two of them with one start are one.
pub proof fn lemma_spans_ascend(text: Seq<u8>, i: int, j: int)
    requires
        0 <= i < j < spans(text).len(),
    ensures
        spans(text)[i].start < spans(text)[j].start,
    decreases j - i,
{
    lemma_span_at(text, 0, i);
    if i + 1 < j {
        lemma_spans_ascend(text, i + 1, j);
    }
}

/// A line appended to a terminated text is its last record, and the records
/// before it stay where they were.
pub proof fn lemma_spans_append(text: Seq<u8>, line: Seq<u8>, base: int)
    requires
        terminated(text),
        newline_free(line),
    ensures
        spans_from(text + line + seq![NEWLINE], base) == spans_from(text, base).push(
            Span { start: base + text.len(), len: line.len() as int },
        ),
    decreases text.len(),
{
    let longer = text + line + seq![NEWLINE];
    if text.len() == 0 {
        lemma_line_len_is(longer, line.len() as int);
        let n = line.len() as int;
        assert(longer.skip(n + 1).len() == 0);
        assert(spans_from(longer.skip(n + 1), base + n + 1).len() == 0);
        assert(spans_from(longer, base) =~= seq![
            Span { start: base, len: line.len() as int },
        ]);
    } else {
        lemma_first_line_ends(text);
        lemma_line_len(text);
        let n = line_len(text) as int;
        assert forall|j: int| 0 <= j < n implies longer[j] != NEWLINE by {
            assert(text.take(n)[j] == longer[j]);
        }
        lemma_line_len_is(longer, n);
        let rest = text.skip(n + 1);
        assert(longer.skip(n + 1) =~= rest + line + seq![NEWLINE]);
        lemma_spans_append(rest, line, base + n + 1);
        assert(spans_from(longer, base) =~= spans_from(text, base).push(
            Span { start: base + text.len(), len: line.len() as int },
        ));
    }
}

/// A last line that lacks its newline is a record all the same: supplying
/// the newline moves no record.
pub proof fn lemma_spans_normalized(text: Seq<u8>, base: int)
    ensures
        spans_from(normalized(text), base) == spans_from(text, base),
    decreases text.len(),
{
    if !terminated(text) {
        let whole = normalized(text);
        let n = line_len(text) as int;
        lemma_line_len(text);
        assert forall|j: int| 0 <= j < n implies whole[j] != NEWLINE by {
            assert(text.take(n)[j] == whole[j]);
        }
        lemma_line_len_is(whole, n);
        if n == text.len() {
            assert(whole.skip(n + 1).len() == 0);
            assert(spans_from(whole.skip(n + 1), base + n + 1).len() == 0);
            assert(spans_from(whole, base) =~= spans_from(text, base));
        } else {
            let rest = text.skip(n + 1);
            assert(rest.len() > 0 && rest.last() == text.last());
            assert(whole.skip(n + 1) =~= normalized(rest));
            lemma_spans_normalized(rest, base + n + 1);
        }
    }
}

/// After a line was appended, the log has one record more: the line. The
/// records it had are unchanged.
pub proof fn lemma_records_append(text: Seq<u8>, line: Seq<u8>)
    requires
        newline_free(line),
    ensures
        ({
            let longer = normalized(text) + line + seq![NEWLINE];
            &&& terminated(longer)
            &&& record_count(longer) == record_count(text) + 1
            &&& spans(longer)[record_count(text) as int] == Span {
                start: normalized(text).len() as int,
                len: line.len() as int,
            }
            &&& record(longer, record_count(text) as int) == line
            &&& forall|i: int|
                0 <= i < record_count(text) ==> spans(longer)[i] == spans(text)[i] && #[trigger] record(
                    longer,
                    i,
                ) == record(text, i)
        }),
{
    let longer = normalized(text) + line + seq![NEWLINE];
    lemma_spans_normalized(text, 0);
    lemma_spans_append(normalized(text), line, 0);
    let count = record_count(text) as int;
    assert(record(longer, count) =~= line);
    assert forall|i: int| 0 <= i < count implies spans(longer)[i] == spans(text)[i]
        && #[trigger] record(longer, i) == record(text, i) by {
        lemma_span_at(text, 0, i);
        assert(record(longer, i) =~= record(text, i));
    }
}

/// Every record of a log is well framed in it.
pub proof fn lemma_records_well_framed(text: Seq<u8>, i: int)
    requires
        0 <= i < record_count(text),
    ensures
        well_framed(text, spans(text)[i]),
{
    lemma_span_at(text, 0, i);
}

/// The records of a joined log are the framed pieces, in their order.
pub proof fn lemma_joined(text: Seq<u8>, kept: Seq<Span>)
    requires
        forall|j: int| 0 <= j < kept.len() ==> well_framed(text, #[trigger] kept[j]),
    ensures
        terminated(joined(text, kept)),
        record_count(joined(text, kept)) == kept.len(),
        forall|j: int|
            0 <= j < kept.len() ==> #[trigger] record(joined(text, kept), j) == framed(
                text,
                kept[j],
            ),
    decreases kept.len(),
{
    if kept.len() > 0 {
        let before = joined(text, kept.drop_last());
        let line = framed(text, kept.last());
        lemma_joined(text, kept.drop_last());
        lemma_records_append(before, line);
        let all = joined(text, kept);
        assert forall|j: int| 0 <= j < kept.len() implies #[trigger] record(all, j) == framed(
            text,
            kept[j],
        ) by {
            if j < kept.len() - 1 {
                assert(record(all, j) == record(before, j));
                assert(kept.drop_last()[j] == kept[j]);
            }
        }
    }
}

/// What is joined depends on the framed pieces alone.
pub proof fn lemma_joined_same(a: Seq<u8>, b: Seq<u8>, kept: Seq<Span>)
    requires
        forall|j: int| 0 <= j < kept.len() ==> framed(a, #[trigger] kept[j]) == framed(b, kept[j]),
    ensures
        joined(a, kept) == joined(b, kept),
    decreases kept.len(),
{
    if kept.len() > 0 {
        let front = kept.drop_last();
        assert forall|j: int| 0 <= j < front.len() implies framed(a, #[trigger] front[j])
            == framed(b, front[j]) by {
            assert(front[j] == kept[j]);
        }
        lemma_joined_same(a, b, front);
        assert(framed(a, kept[kept.len() - 1]) == framed(b, kept[kept.len() - 1]));
    }
}

/// A joined log, joined anew from all of its own records, is itself.
pub proof fn lemma_joined_whole(text: Seq<u8>, kept: Seq<Span>)
    requires
        forall|j: int| 0 <= j < kept.len() ==> well_framed(text, #[trigger] kept[j]),
    ensures
        joined(joined(text, kept), spans(joined(text, kept))) == joined(text, kept),
    decreases kept.len(),
{
    let all = joined(text, kept);
    if kept.len() == 0 {
        assert(spans(all).len() == 0);
    } else {
        let front = kept.drop_last();
        let before = joined(text, front);
        let line = framed(text, kept.last());
        assert forall|j: int| 0 <= j < front.len() implies well_framed(
            text,
            #[trigger] front[j],
        ) by {
            assert(front[j] == kept[j]);
        }
        lemma_joined(text, front);
        lemma_joined_whole(text, front);
        lemma_records_append(before, line);
        let count = record_count(before) as int;
        assert(all == normalized(before) + line + seq![NEWLINE]);
        assert forall|j: int| 0 <= j < count implies spans(all)[j] == spans(before)[j] by {
            assert(record(all, j) == record(before, j));
        }
        assert(spans(all).drop_last() =~= spans(before));
        assert(framed(all, spans(all).last()) == record(all, count));
        assert forall|j: int| 0 <= j < spans(before).len() implies framed(
            all,
            #[trigger] spans(before)[j],
        ) == framed(before, spans(before)[j]) by {
            assert(record(all, j) == record(before, j));
        }
        lemma_joined_same(all, before, spans(before));
    }
}

} // verus!
