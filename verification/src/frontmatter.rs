//! How many lines of a file stand before the body of its document.
use vstd::prelude::*;
use vstd::string::*;

use crate::text::{byte_len, chars_of, is_whitespace, join, lemma_byte_len_push, trim_end};

verus! {

/// The segments of `s` between its `'\n'` characters.
pub open spec fn segments(s: Seq<char>) -> Seq<Seq<char>>
    decreases s.len(),
{
    if s.len() == 0 {
        seq![seq![]]
    } else {
        let before = segments(s.drop_last());
        if s.last() == '\n' {
            before.push(seq![])
        } else {
            before.drop_last().push(before.last().push(s.last()))
        }
    }
}

/// `line` without a `'\r'` at its end.
pub open spec fn without_cr(line: Seq<char>) -> Seq<char> {
    if line.len() > 0 && line.last() == '\r' {
        line.drop_last()
    } else {
        line
    }
}

/// The lines of `s`. A line ends in `"\n"` or `"\r\n"`; what follows the last
/// line end is a line if it is not empty.
pub open spec fn text_lines(s: Seq<char>) -> Seq<Seq<char>> {
    let parts = segments(s);
    let ended = parts.drop_last().map_values(|line: Seq<char>| without_cr(line));
    if parts.last().len() == 0 {
        ended
    } else {
        ended.push(parts.last())
    }
}

/// Whether `line` opens or closes a frontmatter block: `---`, with nothing but
/// whitespace behind it.
pub open spec fn delimiter(line: Seq<char>) -> bool {
    trim_end(line) == seq!['-', '-', '-']
}

/// The first of `lines` from number `from` on that is a delimiter, or their
/// number if none is.
pub open spec fn next_delimiter(lines: Seq<Seq<char>>, from: int) -> int
    decreases lines.len() - from,
{
    if from >= lines.len() {
        lines.len() as int
    } else if delimiter(lines[from]) {
        from
    } else {
        next_delimiter(lines, from + 1)
    }
}

/// How many of `lines` are empty, from number `from` on without a gap.
pub open spec fn empty_run(lines: Seq<Seq<char>>, from: int) -> nat
    decreases lines.len() - from,
{
    if 0 <= from < lines.len() && lines[from].len() == 0 {
        empty_run(lines, from + 1) + 1
    } else {
        0
    }
}

/// How many lines the frontmatter of `s` takes: if the first line is a
/// delimiter, and ends, the lines up to the next delimiter. Without a second
/// delimiter it is the first line alone.
pub open spec fn frontmatter_lines(s: Seq<char>) -> int {
    let lines = text_lines(s);
    let close = next_delimiter(lines, 1);
    if !s.contains('\n') || !delimiter(lines[0]) {
        0
    } else if close < lines.len() {
        close + 1
    } else {
        1
    }
}

/// How many lines of `s` stand before its body.
pub open spec fn body_offset(s: Seq<char>) -> int {
    if byte_len(s) <= 3 {
        0
    } else {
        frontmatter_lines(s) + empty_run(text_lines(s), frontmatter_lines(s))
    }
}

proof fn lemma_segments(s: Seq<char>)
    ensures
        segments(s).len() >= 1,
        segments(s).len() > 1 <==> s.contains('\n'),
    decreases s.len(),
{
    if s.len() > 0 {
        lemma_segments(s.drop_last());
        assert(s.last() == s[s.len() - 1]);
        assert forall|i: int| 0 <= i < s.len() - 1 implies s.drop_last()[i] == #[trigger] s[i] by {}
        if s.contains('\n') && s.last() != '\n' {
            let i = choose|i: int| 0 <= i < s.len() && s[i] == '\n';
            assert(s.drop_last()[i] == '\n');
        }
        if s.drop_last().contains('\n') {
            let i = choose|i: int| 0 <= i < s.len() - 1 && s.drop_last()[i] == '\n';
            assert(s[i] == '\n');
        }
    }
}

/// Where each line of a text is: the place of its first character, and that
/// behind its last.
fn line_spans(s: &Vec<char>) -> (r: Vec<(usize, usize)>)
    ensures
        r@.len() == text_lines(s@).len(),
        forall|k: int|
            0 <= k < r@.len() ==> (#[trigger] r@[k]).0 <= r@[k].1 <= s@.len() && s@.subrange(
                r@[k].0 as int,
                r@[k].1 as int,
            ) == text_lines(s@)[k],
{
    let mut r: Vec<(usize, usize)> = Vec::new();
    let mut start: usize = 0;
    let mut i: usize = 0;
    proof {
        assert(s@.take(0) =~= seq![]);
        assert(segments(s@.take(0)).last() =~= s@.subrange(0, 0));
    }
    while i < s.len()
        invariant
            start <= i <= s@.len(),
            segments(s@.take(i as int)).len() == r@.len() + 1,
            segments(s@.take(i as int)).last() == s@.subrange(start as int, i as int),
            forall|k: int|
                0 <= k < r@.len() ==> (#[trigger] r@[k]).0 <= r@[k].1 <= s@.len() && s@.subrange(
                    r@[k].0 as int,
                    r@[k].1 as int,
                ) == without_cr(segments(s@.take(i as int))[k]),
        decreases s@.len() - i,
    {
        let ghost before = segments(s@.take(i as int));
        let ghost after = segments(s@.take(i + 1));
        let ghost line = s@.subrange(start as int, i as int);
        proof {
            assert(s@.take(i + 1).drop_last() =~= s@.take(i as int));
        }
        if s[i] == '\n' {
            let end: usize = if start < i && s[i - 1] == '\r' {
                i - 1
            } else {
                i
            };
            proof {
                assert(s@.subrange(start as int, end as int) =~= without_cr(line));
                assert(after[r@.len() as int] == line);
                assert forall|k: int| 0 <= k < r@.len() implies after[k] == #[trigger] before[k] by {}
            }
            r.push((start, end));
            start = i + 1;
            assert(s@.subrange(start as int, i + 1) =~= seq![]);
        } else {
            proof {
                assert(line.push(s@[i as int]) =~= s@.subrange(start as int, i + 1));
                assert forall|k: int| 0 <= k < r@.len() implies after[k] == #[trigger] before[k] by {}
            }
        }
        i = i + 1;
    }
    proof {
        assert(s@.take(s@.len() as int) =~= s@);
    }
    let ghost parts = segments(s@);
    let ghost ended = parts.drop_last().map_values(|line: Seq<char>| without_cr(line));
    assert(forall|k: int| 0 <= k < r@.len() ==> ended[k] == without_cr(#[trigger] parts[k]));
    if start < s.len() {
        r.push((start, s.len()));
    }
    r
}

/// Whether `s[from..to]` is `---` with nothing but whitespace behind it.
fn is_delimiter(s: &Vec<char>, from: usize, to: usize) -> (r: bool)
    requires
        from <= to <= s@.len(),
    ensures
        r == delimiter(s@.subrange(from as int, to as int)),
{
    let mut n: usize = to;
    let ghost line = s@.subrange(from as int, to as int);
    while n > from && is_whitespace(s[n - 1])
        invariant
            from <= n <= to <= s@.len(),
            line == s@.subrange(from as int, to as int),
            trim_end(s@.subrange(from as int, n as int)) == trim_end(line),
        decreases n,
    {
        proof {
            assert(s@.subrange(from as int, n as int).drop_last() =~= s@.subrange(
                from as int,
                n - 1,
            ));
        }
        n = n - 1;
    }
    let ghost rest = s@.subrange(from as int, n as int);
    assert(trim_end(rest) == rest);
    if n - from == 3 && s[from] == '-' && s[from + 1] == '-' && s[from + 2] == '-' {
        assert(rest =~= seq!['-', '-', '-']);
        true
    } else {
        proof {
            if rest == seq!['-', '-', '-'] {
                assert(rest.len() == 3);
                assert(rest[0] == '-' && rest[1] == '-' && rest[2] == '-');
            }
        }
        false
    }
}

/// Number of lines of the file `content` that stand before the body of its
/// document. Adding it to the number of a line of the body gives the number of
/// the line in the file.
///
/// 1. A file of three bytes or less has no body, so the answer is 0.
/// 2. If the first line is `---`, with nothing but whitespace between that and
///    its end, the lines up to and with the next such line are frontmatter. If
///    there is no such line, the first line alone is.
/// 3. Empty lines behind the frontmatter are not part of the body. Lines of
///    whitespace are.
pub fn body_line_offset(content: &str) -> (r: usize)
    ensures
        r == body_offset(content@),
        r <= text_lines(content@).len(),
        byte_len(content@) > 3 && r < text_lines(content@).len() ==> text_lines(
            content@,
        )[r as int].len() > 0,
{
    if content.as_bytes().len() <= 3 {
        return 0;
    }
    let chars = chars_of(content);
    let spans = line_spans(&chars);
    let ghost lines = text_lines(content@);
    proof {
        lemma_segments(content@);
    }
    let mut ended = false;
    let mut k: usize = 0;
    while k < chars.len() && !ended
        invariant
            k <= chars@.len(),
            ended <==> exists|i: int| 0 <= i < k && #[trigger] chars@[i] == '\n',
        decreases chars@.len() - k,
    {
        if chars[k] == '\n' {
            ended = true;
        }
        k = k + 1;
    }
    assert(ended == content@.contains('\n'));
    let mut offset: usize = 0;
    if ended && is_delimiter(&chars, spans[0].0, spans[0].1) {
        let mut close: usize = 1;
        while close < spans.len() && !is_delimiter(&chars, spans[close].0, spans[close].1)
            invariant
                1 <= close <= spans@.len(),
                lines == text_lines(chars@),
                spans@.len() == lines.len(),
                forall|k: int|
                    0 <= k < spans@.len() ==> (#[trigger] spans@[k]).0 <= spans@[k].1
                        <= chars@.len() && chars@.subrange(spans@[k].0 as int, spans@[k].1 as int)
                        == lines[k],
                next_delimiter(lines, 1) == next_delimiter(lines, close as int),
            decreases spans@.len() - close,
        {
            close = close + 1;
        }
        offset = if close < spans.len() {
            close + 1
        } else {
            1
        };
    }
    let ghost start = offset as int;
    while offset < spans.len() && spans[offset].0 == spans[offset].1
        invariant
            start <= offset <= spans@.len(),
            lines == text_lines(chars@),
            spans@.len() == lines.len(),
            forall|k: int|
                0 <= k < spans@.len() ==> (#[trigger] spans@[k]).0 <= spans@[k].1 <= chars@.len()
                    && chars@.subrange(spans@[k].0 as int, spans@[k].1 as int) == lines[k],
            empty_run(lines, start) == offset - start + empty_run(lines, offset as int),
        decreases spans@.len() - offset,
    {
        offset = offset + 1;
    }
    offset
}

proof fn lemma_next_delimiter(lines: Seq<Seq<char>>, from: int)
    requires
        0 <= from <= lines.len(),
    ensures
        from <= next_delimiter(lines, from) <= lines.len(),
        forall|k: int| from <= k < next_delimiter(lines, from) ==> !delimiter(#[trigger] lines[k]),
        next_delimiter(lines, from) < lines.len() ==> delimiter(
            lines[next_delimiter(lines, from)],
        ),
    decreases lines.len() - from,
{
    if from < lines.len() && !delimiter(lines[from]) {
        lemma_next_delimiter(lines, from + 1);
    }
}

proof fn lemma_empty_run(lines: Seq<Seq<char>>, from: int)
    requires
        0 <= from <= lines.len(),
    ensures
        from + empty_run(lines, from) <= lines.len(),
        forall|k: int|
            from <= k < from + empty_run(lines, from) ==> (#[trigger] lines[k]).len() == 0,
        from + empty_run(lines, from) < lines.len() ==> lines[from + empty_run(lines, from)].len()
            > 0,
    decreases lines.len() - from,
{
    if from < lines.len() && lines[from].len() == 0 {
        lemma_empty_run(lines, from + 1);
    }
}

/// The body of a document starts with the first line behind the frontmatter that
/// is not empty. The frontmatter goes from a delimiter in the first line to the
/// next delimiter, and is the first line alone if there is none.
pub proof fn body_starts_behind_the_frontmatter(s: Seq<char>)
    requires
        byte_len(s) > 3,
    ensures
        0 <= frontmatter_lines(s) <= body_offset(s) <= text_lines(s).len(),
        forall|k: int|
            frontmatter_lines(s) <= k < body_offset(s) ==> (#[trigger] text_lines(s)[k]).len() == 0,
        body_offset(s) < text_lines(s).len() ==> text_lines(s)[body_offset(s)].len() > 0,
        frontmatter_lines(s) > 0 <==> s.contains('\n') && delimiter(text_lines(s)[0]),
        frontmatter_lines(s) > 1 ==> delimiter(text_lines(s)[frontmatter_lines(s) - 1]) && (forall|
            k: int,
        |
            1 <= k < frontmatter_lines(s) - 1 ==> !delimiter(#[trigger] text_lines(s)[k])),
        frontmatter_lines(s) == 1 ==> forall|k: int|
            1 <= k < text_lines(s).len() ==> !delimiter(#[trigger] text_lines(s)[k]),
{
    let lines = text_lines(s);
    lemma_segments(s);
    if s.contains('\n') && delimiter(lines[0]) {
        lemma_next_delimiter(lines, 1);
    }
    lemma_empty_run(lines, frontmatter_lines(s));
}

/// `s` with `"\r\n"` for each `'\n'`.
pub open spec fn with_crlf(s: Seq<char>) -> Seq<char>
    decreases s.len(),
{
    if s.len() == 0 {
        seq![]
    } else if s.last() == '\n' {
        with_crlf(s.drop_last()).push('\r').push('\n')
    } else {
        with_crlf(s.drop_last()).push(s.last())
    }
}

proof fn lemma_crlf(s: Seq<char>)
    requires
        !s.contains('\r'),
    ensures
        byte_len(with_crlf(s)) >= byte_len(s),
        segments(with_crlf(s)).len() == segments(s).len() >= 1,
        segments(with_crlf(s)).last() == segments(s).last(),
        forall|k: int|
            0 <= k < segments(s).len() - 1 ==> #[trigger] segments(with_crlf(s))[k]
                == segments(s)[k].push('\r'),
        forall|k: int|
            0 <= k < segments(s).len() ==> without_cr(#[trigger] segments(s)[k]) == segments(s)[k],
    decreases s.len(),
{
    if s.len() > 0 {
        let t = s.drop_last();
        let c = s.last();
        assert forall|i: int| 0 <= i < t.len() implies #[trigger] t[i] != '\r' by {
            assert(s[i] == t[i]);
            assert(s.contains(s[i]));
        }
        assert(s.contains(s[s.len() - 1]));
        lemma_crlf(t);
        let u = with_crlf(t);
        let before = segments(t);
        let after = segments(s);
        lemma_byte_len_push(t, c);
        assert(t.push(c) =~= s);
        if c == '\n' {
            let v = u.push('\r');
            lemma_byte_len_push(u, '\r');
            lemma_byte_len_push(v, '\n');
            assert(v.drop_last() =~= u);
            assert(v.push('\n').drop_last() =~= v);
            assert(segments(v) == segments(u).drop_last().push(segments(u).last().push('\r')));
            assert(segments(with_crlf(s)) == segments(v).push(seq![]));
        } else {
            lemma_byte_len_push(u, c);
            assert(u.push(c).drop_last() =~= u);
        }
        assert forall|k: int| 0 <= k < after.len() implies without_cr(#[trigger] after[k])
            == after[k] by {
            if k < before.len() - 1 || c == '\n' {
                if k < before.len() {
                    assert(after[k] == before[k]);
                }
            }
        }
        assert forall|k: int| 0 <= k < after.len() - 1 implies #[trigger] segments(with_crlf(s))[k]
            == after[k].push('\r') by {
            assert(after[k] == before[k]);
            if k < before.len() - 1 {
                assert(segments(u)[k] == before[k].push('\r'));
            }
        }
    }
}

/// It makes no difference to where the body starts whether lines end in `"\n"` or
/// in `"\r\n"`, in a file of more than three bytes.
pub proof fn line_ends_make_no_difference(s: Seq<char>)
    requires
        byte_len(s) > 3,
        !s.contains('\r'),
    ensures
        text_lines(with_crlf(s)) == text_lines(s),
        body_offset(with_crlf(s)) == body_offset(s),
{
    let t = with_crlf(s);
    lemma_crlf(s);
    lemma_segments(s);
    lemma_segments(t);
    assert(text_lines(t) =~= text_lines(s)) by {
        let xs = segments(s).drop_last().map_values(|line: Seq<char>| without_cr(line));
        let ys = segments(t).drop_last().map_values(|line: Seq<char>| without_cr(line));
        assert forall|k: int| 0 <= k < xs.len() implies xs[k] == #[trigger] ys[k] by {
            let line = segments(s)[k];
            assert(segments(t)[k] == line.push('\r'));
            assert(line.push('\r').drop_last() =~= line);
            assert(without_cr(segments(s)[k]) == line);
        }
        assert(xs =~= ys);
    }
}

proof fn lemma_segments_join(s: Seq<char>)
    ensures
        segments(s).len() >= 1,
        join(segments(s), seq!['\n']) == s,
        forall|k: int, i: int|
            0 <= k < segments(s).len() && 0 <= i < segments(s)[k].len() ==> #[trigger] segments(
                s,
            )[k][i] != '\n',
    decreases s.len(),
{
    if s.len() == 0 {
        assert(join(segments(s), seq!['\n']) =~= s);
    } else {
        let t = s.drop_last();
        lemma_segments_join(t);
        let before = segments(t);
        let after = segments(s);
        assert(t.push(s.last()) =~= s);
        if s.last() == '\n' {
            assert(after.drop_last() =~= before);
            assert(join(after, seq!['\n']) =~= s);
        } else {
            assert(after.drop_last() =~= before.drop_last());
            assert(join(after, seq!['\n']) =~= s);
        }
        assert forall|k: int, i: int|
            0 <= k < after.len() && 0 <= i < after[k].len() implies #[trigger] after[k][i]
            != '\n' by {
            if k < before.len() && i < before[k].len() {
                assert(before[k][i] == after[k][i]);
            }
        }
    }
}

/// The lines of a text are what stands between its line feeds: with line feeds
/// between them, and a carriage return before it where the line lost one, they are
/// the text. The last one counts only if it is not empty.
pub proof fn lines_stand_between_line_feeds(s: Seq<char>)
    ensures
        exists|parts: Seq<Seq<char>>|
            {
                &&& #[trigger] join(parts, seq!['\n']) == s
                &&& parts.len() > 0
                &&& forall|k: int, i: int|
                    0 <= k < parts.len() && 0 <= i < parts[k].len() ==> #[trigger] parts[k][i]
                        != '\n'
                &&& text_lines(s).len() == (if parts.last().len() == 0 {
                    parts.len() - 1
                } else {
                    parts.len() as int
                })
                &&& parts.last().len() > 0 ==> text_lines(s).last() == parts.last()
                &&& forall|k: int|
                    0 <= k < parts.len() - 1 ==> #[trigger] text_lines(s)[k] == (
                    if parts[k].len() > 0 && parts[k].last() == '\r' {
                        parts[k].drop_last()
                    } else {
                        parts[k]
                    })
            },
{
    lemma_segments_join(s);
    let parts = segments(s);
    assert(join(parts, seq!['\n']) == s);
    assert forall|k: int| 0 <= k < parts.len() - 1 implies #[trigger] text_lines(s)[k] == (
    if parts[k].len() > 0 && parts[k].last() == '\r' {
        parts[k].drop_last()
    } else {
        parts[k]
    }) by {}
}

/// How many lines stand before the body, line by line. Without `---` in the first
/// line, or without an end of that line, those are the empty lines at the start;
/// else the lines up to the next `---`, or the first line alone if there is none,
/// and the empty lines behind. A `---` may have whitespace behind it. Three bytes or
/// fewer have no body.
pub proof fn the_body_is_found_line_by_line(s: Seq<char>, front: int, n: int)
    requires
        0 <= front <= n <= text_lines(s).len(),
        ({
            let lines = text_lines(s);
            let opens = s.contains('\n') && trim_end(lines[0]) == seq!['-', '-', '-'];
            let closed = exists|k: int|
                1 <= k < lines.len() && trim_end(#[trigger] lines[k]) == seq!['-', '-', '-'];
            &&& !opens ==> front == 0
            &&& opens && !closed ==> front == 1
            &&& opens && closed ==> front > 1 && trim_end(lines[front - 1]) == seq!['-', '-', '-']
                && forall|k: int|
                1 <= k < front - 1 ==> trim_end(#[trigger] lines[k]) != seq!['-', '-', '-']
            &&& forall|k: int| front <= k < n ==> (#[trigger] lines[k]).len() == 0
            &&& n < lines.len() ==> lines[n].len() > 0
        }),
    ensures
        body_offset(s) == (if byte_len(s) <= 3 {
            0
        } else {
            n
        }),
{
    if byte_len(s) > 3 {
        let lines = text_lines(s);
        body_starts_behind_the_frontmatter(s);
        let f = frontmatter_lines(s);
        if s.contains('\n') && delimiter(lines[0]) {
            if exists|k: int|
                1 <= k < lines.len() && trim_end(#[trigger] lines[k]) == seq!['-', '-', '-'] {
                let k = choose|k: int|
                    1 <= k < lines.len() && trim_end(#[trigger] lines[k]) == seq!['-', '-', '-'];
                assert(delimiter(lines[k]));
                if f > 1 {
                    if f < front {
                        assert(delimiter(lines[f - 1]));
                    } else if f > front {
                        assert(!delimiter(lines[front - 1]));
                    }
                }
            } else if f > 1 {
                assert(delimiter(lines[f - 1]));
            }
        }
        assert(f == front);
        let m = body_offset(s);
        if m < n {
            assert(lines[m].len() == 0);
        } else if m > n {
            assert(lines[n].len() == 0);
        }
    }
}

} // verus!
