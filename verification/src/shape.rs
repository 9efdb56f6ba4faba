//! The shape of a record: one JSON object, whole, alone on its line.
//!
//! A line has this shape when its first byte that is no white space opens
//! an object, the brace that closes this object is there, and nothing but
//! white space follows it. Brackets inside strings do not count. A record
//! that was cut short lacks its closing brace, so it does not have the shape.
//!
//! This is a test of the frame, not of JSON: of what stands between the two
//! braces only the strings and the brackets are looked at.

use vstd::prelude::*;

verus! {

pub const QUOTE: u8 = 34;

pub const BACKSLASH: u8 = 92;

pub const OPEN_BRACE: u8 = 123;

pub const CLOSE_BRACE: u8 = 125;

pub const OPEN_BRACKET: u8 = 91;

pub const CLOSE_BRACKET: u8 = 93;

/// Whether `byte` is white space in JSON: a space, a tab, a line feed or a
/// carriage return.
pub open spec fn is_space(byte: u8) -> bool {
    byte == 32 || byte == 9 || byte == 10 || byte == 13
}

/// Where a reader stands inside an object: how many brackets are open,
/// whether it is inside a string, and whether the last byte of the string
/// was a backslash that escapes the next.
pub struct Scan {
    pub depth: int,
    pub in_string: bool,
    pub escaped: bool,
}

/// The reader just behind the brace that opens the object.
pub open spec fn opened() -> Scan {
    Scan { depth: 1, in_string: false, escaped: false }
}

/// Where the reader stands one byte on.
pub open spec fn step(scan: Scan, byte: u8) -> Scan {
    if scan.in_string {
        if scan.escaped {
            Scan { escaped: false, ..scan }
        } else if byte == BACKSLASH {
            Scan { escaped: true, ..scan }
        } else if byte == QUOTE {
            Scan { in_string: false, ..scan }
        } else {
            scan
        }
    } else if byte == QUOTE {
        Scan { in_string: true, ..scan }
    } else if byte == OPEN_BRACE || byte == OPEN_BRACKET {
        Scan { depth: scan.depth + 1, ..scan }
    } else if byte == CLOSE_BRACE || byte == CLOSE_BRACKET {
        Scan { depth: scan.depth - 1, ..scan }
    } else {
        scan
    }
}

/// The offset just behind the bracket that closes the object, for a reader
/// that stands at the offset `i`; none where the line ends before.
pub open spec fn closing(line: Seq<u8>, i: int, scan: Scan) -> Option<int>
    decreases line.len() - i,
{
    if i < 0 || i >= line.len() {
        None
    } else if step(scan, line[i]).depth == 0 {
        Some(i + 1)
    } else {
        closing(line, i + 1, step(scan, line[i]))
    }
}

/// The offset of the first byte at or behind `i` that is no white space;
/// the length of the line where there is none.
pub open spec fn first_mark(line: Seq<u8>, i: int) -> int
    decreases line.len() - i,
{
    if i < 0 || i >= line.len() || !is_space(line[i]) {
        i
    } else {
        first_mark(line, i + 1)
    }
}

/// Whether the line has the shape of one whole object, with nothing but
/// white space around it.
pub open spec fn whole_object(line: Seq<u8>) -> bool {
    let start = first_mark(line, 0);
    &&& start < line.len()
    &&& line[start] == OPEN_BRACE
    &&& closing(line, start + 1, opened()) matches Some(end)
    &&& line[end - 1] == CLOSE_BRACE
    &&& first_mark(line, end) == line.len()
}

/// The first mark lies at or behind the offset from which it is sought, and
/// not behind the end of the line.
pub proof fn lemma_first_mark_bounds(line: Seq<u8>, i: int)
    requires
        0 <= i <= line.len(),
    ensures
        i <= first_mark(line, i) <= line.len(),
    decreases line.len() - i,
{
    if i < line.len() && is_space(line[i]) {
        lemma_first_mark_bounds(line, i + 1);
    }
}

/// The first mark of a line that was cut short is that of the whole line,
/// where the cut left it in.
pub proof fn lemma_first_mark_cut(line: Seq<u8>, n: int, i: int)
    requires
        0 <= i <= n <= line.len(),
    ensures
        first_mark(line.take(n), i) == if first_mark(line, i) < n {
            first_mark(line, i)
        } else {
            n
        },
    decreases n - i,
{
    lemma_first_mark_bounds(line, i);
    if i < n {
        assert(line.take(n)[i] == line[i]);
        if is_space(line[i]) {
            lemma_first_mark_cut(line, n, i + 1);
        }
    }
}

/// A line that was cut short in front of the bracket that closes its object,
/// or in it, has no such bracket.
pub proof fn lemma_closing_cut(line: Seq<u8>, n: int, i: int, scan: Scan)
    requires
        0 <= i,
        0 <= n <= line.len(),
        closing(line, i, scan) matches Some(end) && n < end,
    ensures
        closing(line.take(n), i, scan) is None,
    decreases n - i,
{
    if i < n {
        assert(line.take(n)[i] == line[i]);
        lemma_closing_cut(line, n, i + 1, step(scan, line[i]));
    }
}

/// Whether `byte` is white space in JSON.
fn is_space_byte(byte: u8) -> (r: bool)
    ensures
        r == is_space(byte),
{
    byte == 32 || byte == 9 || byte == 10 || byte == 13
}

/// The offset of the first byte at or behind `from` that is no white space.
fn skip_space(line: &[u8], from: usize) -> (at: usize)
    requires
        from <= line@.len(),
    ensures
        at == first_mark(line@, from as int),
        from <= at <= line@.len(),
{
    let mut at = from;
    while at < line.len() && is_space_byte(line[at])
        invariant
            from <= at <= line@.len(),
            first_mark(line@, from as int) == first_mark(line@, at as int),
        decreases line@.len() - at,
    {
        at = at + 1;
    }
    at
}

/// Whether the line has the shape of one whole object, with nothing but
/// white space around it.
pub fn is_whole_object(line: &[u8]) -> (r: bool)
    ensures
        r == whole_object(line@),
{
    let n = line.len();
    let start = skip_space(line, 0);
    if start >= n || line[start] != OPEN_BRACE {
        return false;
    }
    let mut i: usize = start + 1;
    let mut depth: usize = 1;
    let mut in_string = false;
    let mut escaped = false;
    while i < n && depth > 0
        invariant
            n == line@.len(),
            start < i <= n,
            depth <= i,
            closing(line@, start + 1, opened()) == if depth == 0 {
                Some(i as int)
            } else {
                closing(line@, i as int, Scan { depth: depth as int, in_string, escaped })
            },
        decreases n - i,
    {
        let byte = line[i];
        if in_string {
            if escaped {
                escaped = false;
            } else if byte == BACKSLASH {
                escaped = true;
            } else if byte == QUOTE {
                in_string = false;
            }
        } else if byte == QUOTE {
            in_string = true;
        } else if byte == OPEN_BRACE || byte == OPEN_BRACKET {
            depth = depth + 1;
        } else if byte == CLOSE_BRACE || byte == CLOSE_BRACKET {
            depth = depth - 1;
        }
        i = i + 1;
    }
    if depth > 0 {
        return false;
    }
    if line[i - 1] != CLOSE_BRACE {
        return false;
    }
    skip_space(line, i) == n
}

} // verus!
