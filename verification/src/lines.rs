//! Lines of a text: which line a byte is on, and which bytes a line has.
//!
//! A line is a segment between `'\n'` bytes, so a text that ends in `'\n'` has
//! a last line that is empty. An empty text has no lines. Lines are numbered
//! from 1.
use std::ops::Range;
use vstd::prelude::*;
use vstd::string::*;
use vstd::utf8::*;

use crate::text::lemma_ascii_boundaries;

verus! {

/// The byte that ends a line.
pub const NEWLINE: u8 = 10;

/// The number of `'\n'` bytes in `b`.
pub open spec fn newlines(b: Seq<u8>) -> nat
    decreases b.len(),
{
    if b.len() == 0 {
        0
    } else if b.last() == NEWLINE {
        newlines(b.drop_last()) + 1
    } else {
        newlines(b.drop_last())
    }
}

/// The number of lines of `b`.
pub open spec fn line_count(b: Seq<u8>) -> nat {
    if b.len() == 0 {
        0
    } else {
        newlines(b) + 1
    }
}

/// The line that byte `byte` of `b` is on: one more than the number of line
/// ends before it. A `'\n'` is on the line it ends. A place behind the last
/// byte is on the last line.
pub open spec fn line_at(b: Seq<u8>, byte: int) -> nat {
    newlines(b.take(if byte <= b.len() { byte } else { b.len() as int })) + 1
}

/// The offset of the first byte of each line of `b`, in order.
pub open spec fn line_starts(b: Seq<u8>) -> Seq<int>
    decreases b.len(),
{
    if b.len() == 0 {
        seq![]
    } else {
        let before = if b.len() == 1 {
            seq![0int]
        } else {
            line_starts(b.drop_last())
        };
        if b.last() == NEWLINE {
            before.push(b.len() as int)
        } else {
            before
        }
    }
}

/// `n`, brought into `low..=high`.
pub open spec fn clamped(n: int, low: int, high: int) -> int {
    if n < low {
        low
    } else if n > high {
        high
    } else {
        n
    }
}

/// The offset of the first byte of lines `first..=last` of `b`. A request
/// outside of the text stands for the nearest lines there are.
pub open spec fn range_start(b: Seq<u8>, first: int) -> int {
    if b.len() == 0 {
        0
    } else {
        line_starts(b)[clamped(first, 1, line_count(b) as int) - 1]
    }
}

/// The offset behind the last byte of lines `first..=last` of `b`, the `'\n'`
/// of line `last` left out.
pub open spec fn range_end(b: Seq<u8>, first: int, last: int) -> int {
    let count = line_count(b) as int;
    let from = clamped(first, 1, count);
    let to = clamped(last, from, count);
    if b.len() == 0 {
        0
    } else if to < count {
        line_starts(b)[to] - 1
    } else {
        b.len() as int
    }
}

/// What the offsets of the lines are like: there is one for each line, they
/// increase, the first is 0, and each of the others stands behind a `'\n'`.
pub proof fn lemma_line_starts(b: Seq<u8>)
    ensures
        line_starts(b).len() == line_count(b),
        b.len() > 0 ==> line_starts(b)[0] == 0,
        forall|i: int|
            0 < i < line_starts(b).len() ==> 0 < #[trigger] line_starts(b)[i] <= b.len()
                && b[line_starts(b)[i] - 1] == NEWLINE,
        forall|i: int, j: int|
            0 <= i < j < line_starts(b).len() ==> #[trigger] line_starts(b)[i]
                < #[trigger] line_starts(b)[j],
    decreases b.len(),
{
    if b.len() > 0 {
        lemma_line_starts(b.drop_last());
        if b.len() == 1 {
            assert(newlines(b.drop_last()) == 0);
        }
    }
}

/// A line starts at or before a byte exactly if it is no later than the byte's
/// own line.
pub proof fn lemma_line_at(b: Seq<u8>, byte: int)
    requires
        0 <= byte,
    ensures
        b.len() == 0 ==> line_at(b, byte) == 1,
        b.len() > 0 ==> 1 <= line_at(b, byte) <= line_count(b),
        forall|n: int|
            1 <= n <= line_count(b) ==> (#[trigger] line_starts(b)[n - 1] <= byte <==> n
                <= line_at(b, byte)),
    decreases b.len(),
{
    let k = if byte <= b.len() {
        byte
    } else {
        b.len() as int
    };
    lemma_line_starts(b);
    if b.len() == 0 {
        assert(b.take(k) =~= seq![]);
    } else {
        let c = b.drop_last();
        lemma_line_starts(c);
        lemma_line_at(c, byte);
        if k == b.len() {
            assert(b.take(k) =~= b);
            assert(c.take(c.len() as int) =~= c);
        } else {
            assert(b.take(k) =~= c.take(k));
        }
        if c.len() == 0 {
            assert(c =~= seq![]);
            assert(newlines(c) == 0);
        }
    }
}

/// A later byte is on the same line or on a later one.
pub proof fn lemma_line_at_monotone(b: Seq<u8>, i: int, j: int)
    requires
        0 <= i <= j,
    ensures
        line_at(b, i) <= line_at(b, j),
{
    let x = if i <= b.len() {
        i
    } else {
        b.len() as int
    };
    let y = if j <= b.len() {
        j
    } else {
        b.len() as int
    };
    lemma_newlines_take(b, x, y);
}

proof fn lemma_newlines_take(b: Seq<u8>, i: int, j: int)
    requires
        0 <= i <= j <= b.len(),
    ensures
        newlines(b.take(i)) <= newlines(b.take(j)),
    decreases j - i,
{
    if i < j {
        lemma_newlines_take(b, i, j - 1);
        assert(b.take(j).drop_last() =~= b.take(j - 1));
    }
}

/// The range of lines `first..=last` is inside of the text, and it does not
/// cut a character apart.
pub proof fn lemma_range(b: Seq<u8>, first: int, last: int)
    requires
        valid_utf8(b),
    ensures
        0 <= range_start(b, first) <= range_end(b, first, last) <= b.len(),
        is_char_boundary(b, range_start(b, first)),
        is_char_boundary(b, range_end(b, first, last)),
{
    lemma_line_starts(b);
    is_char_boundary_start_end_of_seq(b);
    if b.len() > 0 {
        let count = line_count(b) as int;
        let from = clamped(first, 1, count);
        let to = clamped(last, from, count);
        if from > 1 {
            lemma_ascii_boundaries(b, line_starts(b)[from - 1] - 1);
        }
        if to < count {
            lemma_ascii_boundaries(b, line_starts(b)[to] - 1);
            assert(line_starts(b)[from - 1] < line_starts(b)[to]);
        }
    }
}

/// A byte of the range of lines `first..=last` is on one of these lines.
pub proof fn lemma_range_lines(b: Seq<u8>, first: int, last: int, byte: int)
    requires
        1 <= first <= last <= line_count(b),
        range_start(b, first) <= byte <= range_end(b, first, last),
    ensures
        first <= line_at(b, byte) <= last,
{
    lemma_line_starts(b);
    lemma_line_at(b, byte);
    assert(line_starts(b)[first - 1] <= byte);
    if last < line_count(b) {
        assert(byte < line_starts(b)[last + 1 - 1]);
    }
}

/// A byte is in the range of the line that it is on, and a byte in the range of
/// a line is on that line. The `'\n'` that ends a line stands right behind its
/// range, and the next line starts behind it.
pub proof fn bytes_are_on_their_lines(b: Seq<u8>, byte: int, n: int)
    requires
        0 <= byte < b.len(),
        1 <= n <= line_count(b),
    ensures
        line_at(b, byte) == n <==> range_start(b, n) <= byte <= range_end(b, n, n),
        n < line_count(b) ==> b[range_end(b, n, n)] == NEWLINE && range_start(b, n + 1)
            == range_end(b, n, n) + 1,
        n == line_count(b) ==> range_end(b, n, n) == b.len(),
{
    lemma_line_starts(b);
    lemma_line_at(b, byte);
    assert(line_starts(b)[n - 1] <= byte <==> n <= line_at(b, byte));
    if n < line_count(b) {
        assert(line_starts(b)[n + 1 - 1] <= byte <==> n + 1 <= line_at(b, byte));
    }
}

/// Lines end at line feeds: the first byte is on line 1, the byte behind a line feed
/// on the next line, and any other byte on the line of the byte before it. There
/// are as many lines as the line that the text ends on has for a number, and none
/// in an empty text.
pub proof fn lines_end_at_line_feeds(b: Seq<u8>, i: int)
    requires
        0 <= i,
    ensures
        line_at(b, 0) == 1,
        i < b.len() ==> line_at(b, i + 1) == line_at(b, i) + (if b[i] == 10 {
            1nat
        } else {
            0
        }),
        i >= b.len() ==> line_at(b, i) == line_at(b, b.len() as int),
        line_count(b) == (if b.len() == 0 {
            0
        } else {
            line_at(b, b.len() as int)
        }),
{
    assert(b.take(0) =~= seq![]);
    assert(b.take(b.len() as int) =~= b);
    if i < b.len() {
        assert(b.take(i + 1).drop_last() =~= b.take(i));
    }
}

/// The range of lines `first..=last` holds exactly the bytes that are on them.
/// Lines before the first line or behind the last one are taken as those, and the
/// range of a `last` before `first` as that of `first` alone.
pub proof fn ranges_hold_the_bytes_of_their_lines(b: Seq<u8>, first: int, last: int, byte: int)
    requires
        b.len() > 0,
        0 <= byte <= b.len(),
    ensures
        ({
            let count = line_count(b) as int;
            let from = if first < 1 {
                1
            } else if first > count {
                count
            } else {
                first
            };
            let to = if last < from {
                from
            } else if last > count {
                count
            } else {
                last
            };
            range_start(b, first) <= byte <= range_end(b, first, last) <==> from <= line_at(b, byte)
                <= to
        }),
{
    lemma_line_starts(b);
    lemma_line_at(b, byte);
    let count = line_count(b) as int;
    let from = clamped(first, 1, count);
    let to = clamped(last, from, count);
    assert(line_starts(b)[from - 1] <= byte <==> from <= line_at(b, byte));
    if to < count {
        assert(line_starts(b)[to + 1 - 1] <= byte <==> to + 1 <= line_at(b, byte));
    }
}

/// Where each line of a text starts, found once, so that neither question asks
/// for a second pass over the text.
pub struct LineIndex {
    starts: Vec<usize>,
    len: usize,
    bytes: Ghost<Seq<u8>>,
}

impl View for LineIndex {
    type V = Seq<u8>;

    /// The bytes of the text that the index was made for.
    closed spec fn view(&self) -> Seq<u8> {
        self.bytes@
    }
}

impl LineIndex {
    /// The index holds the offsets of the lines of its text.
    pub closed spec fn wf(&self) -> bool {
        &&& self.len == self@.len()
        &&& self.starts@.len() == line_starts(self@).len()
        &&& forall|i: int|
            0 <= i < self.starts@.len() ==> #[trigger] self.starts@[i] == line_starts(self@)[i]
    }

    /// The index of `text`.
    pub fn new(text: &str) -> (r: LineIndex)
        ensures
            r.wf(),
            r@ == encode_utf8(text@),
    {
        let bytes = text.as_bytes();
        let mut starts: Vec<usize> = Vec::new();
        if bytes.len() > 0 {
            starts.push(0);
        }
        let mut i: usize = 0;
        while i < bytes.len()
            invariant
                i <= bytes@.len(),
                bytes@.len() > 0 && i == 0 ==> starts@ == seq![0usize],
                bytes@.len() == 0 ==> starts@.len() == 0,
                i > 0 ==> starts@.len() == line_starts(bytes@.take(i as int)).len(),
                i > 0 ==> forall|k: int|
                    0 <= k < starts@.len() ==> #[trigger] starts@[k] == line_starts(
                        bytes@.take(i as int),
                    )[k],
            decreases bytes@.len() - i,
        {
            if bytes[i] == NEWLINE {
                starts.push(i + 1);
            }
            i = i + 1;
            assert(bytes@.take(i as int).drop_last() =~= bytes@.take(i - 1));
        }
        proof {
            assert(bytes@.take(bytes@.len() as int) =~= bytes@);
        }
        LineIndex { starts, len: bytes.len(), bytes: Ghost(bytes@) }
    }

    /// The number of lines.
    pub fn line_count(&self) -> (r: usize)
        requires
            self.wf(),
        ensures
            r == line_count(self@),
    {
        proof {
            lemma_line_starts(self@);
        }
        self.starts.len()
    }

    /// The line that byte `byte` is on.
    pub fn line_of(&self, byte: usize) -> (r: usize)
        requires
            self.wf(),
        ensures
            r == line_at(self@, byte as int),
    {
        proof {
            lemma_line_starts(self@);
            lemma_line_at(self@, byte as int);
        }
        if self.starts.len() == 0 {
            return 1;
        }
        // Lines `1..=low` start at or before `byte`, the lines behind `high`
        // start after it.
        let mut low: usize = 1;
        let mut high: usize = self.starts.len();
        while low < high
            invariant
                self.wf(),
                self.starts@.len() == line_count(self@),
                1 <= low <= line_at(self@, byte as int) <= high <= self.starts@.len(),
                forall|n: int|
                    1 <= n <= line_count(self@) ==> (#[trigger] line_starts(self@)[n - 1] <= byte
                        <==> n <= line_at(self@, byte as int)),
            decreases high - low,
        {
            let mid: usize = low + (high - low) / 2 + (high - low) % 2;
            assert(self.starts@[mid - 1] == line_starts(self@)[mid - 1]);
            if self.starts[mid - 1] <= byte {
                low = mid;
            } else {
                high = mid - 1;
            }
        }
        low
    }

    /// The bytes of lines `first..=last`, without the `'\n'` of line `last`.
    /// A request outside of the text, or one with `last` before `first`, stands
    /// for the nearest lines there are; for an empty text it is `0..0`.
    pub fn byte_range(&self, first: usize, last: usize) -> (r: Range<usize>)
        requires
            self.wf(),
        ensures
            r.start == range_start(self@, first as int),
            r.end == range_end(self@, first as int, last as int),
            r.start <= r.end <= self@.len(),
    {
        proof {
            lemma_line_starts(self@);
        }
        let count: usize = self.starts.len();
        if count == 0 {
            return 0..0;
        }
        let from: usize = if first < 1 {
            1
        } else if first > count {
            count
        } else {
            first
        };
        let to: usize = if last < from {
            from
        } else if last > count {
            count
        } else {
            last
        };
        let start: usize = self.starts[from - 1];
        assert(start == line_starts(self@)[from - 1]);
        let end: usize = if to < count {
            assert(line_starts(self@)[from - 1] < line_starts(self@)[to as int]);
            assert(self.starts@[to as int] == line_starts(self@)[to as int]);
            self.starts[to] - 1
        } else {
            self.len
        };
        assert(from > 1 ==> line_starts(self@)[from - 1] <= self@.len());
        start..end
    }
}

} // verus!
