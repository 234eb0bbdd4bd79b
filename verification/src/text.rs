//! Characters and text: classes of characters, trimming, joining, slicing and
//! the size of a text in bytes.
//!
//! A text is modelled by the sequence of its characters. Its bytes are the
//! UTF-8 encoding of that sequence.
use vstd::prelude::*;
use vstd::string::*;
use vstd::utf8::*;

verus! {

/// `String::push` adds one character at the end of the text.
pub assume_specification[ String::push ](s: &mut String, c: char)
    ensures
        final(s)@ == old(s)@.push(c),
;

/// The characters with the Unicode property `White_Space`.
pub open spec fn whitespace(c: char) -> bool {
    ||| '\u{9}' <= c <= '\u{d}'
    ||| c == '\u{20}'
    ||| c == '\u{85}'
    ||| c == '\u{a0}'
    ||| c == '\u{1680}'
    ||| '\u{2000}' <= c <= '\u{200a}'
    ||| c == '\u{2028}'
    ||| c == '\u{2029}'
    ||| c == '\u{202f}'
    ||| c == '\u{205f}'
    ||| c == '\u{3000}'
}

/// The characters of the Unicode general category `Cc`.
pub open spec fn control(c: char) -> bool {
    ||| c <= '\u{1f}'
    ||| '\u{7f}' <= c <= '\u{9f}'
}

/// Whether `c` is a whitespace character.
pub fn is_whitespace(c: char) -> (r: bool)
    ensures
        r == whitespace(c),
{
    ('\u{9}' <= c && c <= '\u{d}') || c == '\u{20}' || c == '\u{85}' || c == '\u{a0}' || c
        == '\u{1680}' || ('\u{2000}' <= c && c <= '\u{200a}') || c == '\u{2028}' || c == '\u{2029}'
        || c == '\u{202f}' || c == '\u{205f}' || c == '\u{3000}'
}

/// Whether `c` is a control character.
pub fn is_control(c: char) -> (r: bool)
    ensures
        r == control(c),
{
    c <= '\u{1f}' || ('\u{7f}' <= c && c <= '\u{9f}')
}

/// `s` without the whitespace at its start.
pub open spec fn trim_start(s: Seq<char>) -> Seq<char>
    decreases s.len(),
{
    if s.len() > 0 && whitespace(s[0]) {
        trim_start(s.drop_first())
    } else {
        s
    }
}

/// `s` without the whitespace at its end.
pub open spec fn trim_end(s: Seq<char>) -> Seq<char>
    decreases s.len(),
{
    if s.len() > 0 && whitespace(s.last()) {
        trim_end(s.drop_last())
    } else {
        s
    }
}

/// `s` without the whitespace at its start and at its end.
pub open spec fn trim(s: Seq<char>) -> Seq<char> {
    trim_end(trim_start(s))
}

/// `s` without its whitespace.
pub open spec fn dense(s: Seq<char>) -> Seq<char>
    decreases s.len(),
{
    if s.len() == 0 {
        seq![]
    } else if whitespace(s.last()) {
        dense(s.drop_last())
    } else {
        dense(s.drop_last()).push(s.last())
    }
}

/// The size of `s` in bytes.
pub open spec fn byte_len(s: Seq<char>) -> nat {
    encode_utf8(s).len()
}

/// The text that stands in bytes `start..end` of `s`.
pub open spec fn byte_slice(s: Seq<char>, start: int, end: int) -> Seq<char> {
    decode_utf8(encode_utf8(s).subrange(start, end))
}

/// `parts`, with `sep` between neighbours.
pub open spec fn join(parts: Seq<Seq<char>>, sep: Seq<char>) -> Seq<char>
    decreases parts.len(),
{
    if parts.len() == 0 {
        seq![]
    } else if parts.len() == 1 {
        parts[0]
    } else {
        join(parts.drop_last(), sep) + sep + parts.last()
    }
}

/// The views of a list of strings.
pub open spec fn views(parts: Seq<String>) -> Seq<Seq<char>> {
    parts.map_values(|s: String| s@)
}

/// The encoding of two texts in a row.
pub proof fn lemma_encode_concat(a: Seq<char>, b: Seq<char>)
    ensures
        encode_utf8(a + b) == encode_utf8(a) + encode_utf8(b),
        byte_len(a + b) == byte_len(a) + byte_len(b),
    decreases a.len(),
{
    if a.len() == 0 {
        assert(a + b =~= b);
        assert(encode_utf8(a) + encode_utf8(b) =~= encode_utf8(b));
    } else {
        lemma_encode_concat(a.drop_first(), b);
        assert((a + b).drop_first() =~= a.drop_first() + b);
        assert(encode_utf8(a + b) =~= encode_utf8(a) + encode_utf8(b));
    }
}

/// The encoding of one character.
pub proof fn lemma_encode_one(c: char)
    ensures
        encode_utf8(seq![c]) == encode_scalar(c as u32),
{
    reveal_with_fuel(encode_utf8, 2);
    assert(seq![c].drop_first() =~= seq![]);
    assert(encode_utf8(seq![c]) =~= encode_scalar(c as u32));
}

/// The size of a text with one more character.
pub proof fn lemma_byte_len_push(s: Seq<char>, c: char)
    ensures
        byte_len(s.push(c)) == byte_len(s) + byte_len(seq![c]),
        1 <= byte_len(seq![c]) <= 4,
{
    assert(s.push(c) =~= s + seq![c]);
    lemma_encode_concat(s, seq![c]);
    lemma_encode_one(c);
}

/// A text holds at least one byte for each character.
pub proof fn lemma_byte_len_bounds(s: Seq<char>)
    ensures
        s.len() <= byte_len(s) <= 4 * s.len(),
    decreases s.len(),
{
    if s.len() > 0 {
        lemma_byte_len_bounds(s.drop_last());
        lemma_byte_len_push(s.drop_last(), s.last());
        assert(s.drop_last().push(s.last()) =~= s);
    }
}

/// Texts with the same bytes are the same text.
pub proof fn lemma_encode_injective(a: Seq<char>, b: Seq<char>)
    requires
        encode_utf8(a) == encode_utf8(b),
    ensures
        a == b,
{
    encode_utf8_decode_utf8(a);
    encode_utf8_decode_utf8(b);
}

/// The bytes of a slice between two character boundaries.
pub proof fn lemma_byte_slice(s: Seq<char>, start: int, end: int)
    requires
        0 <= start <= end <= byte_len(s),
        is_char_boundary(encode_utf8(s), start),
        is_char_boundary(encode_utf8(s), end),
    ensures
        encode_utf8(byte_slice(s, start, end)) == encode_utf8(s).subrange(start, end),
        byte_len(byte_slice(s, start, end)) == end - start,
{
    let bytes = encode_utf8(s);
    encode_utf8_valid_utf8(s);
    lemma_boundary_prefix(bytes, start, end);
    valid_utf8_split(bytes, end);
    let head = bytes.subrange(0, end);
    valid_utf8_split(head, start);
    assert(head.subrange(start, head.len() as int) =~= bytes.subrange(start, end));
    decode_utf8_encode_utf8(bytes.subrange(start, end));
}

/// A character boundary stays one when the text after a later boundary is cut
/// off.
proof fn lemma_boundary_prefix(bytes: Seq<u8>, start: int, end: int)
    requires
        valid_utf8(bytes),
        0 <= start <= end <= bytes.len(),
        is_char_boundary(bytes, start),
        is_char_boundary(bytes, end),
    ensures
        valid_utf8(bytes.subrange(0, end)),
        is_char_boundary(bytes.subrange(0, end), start),
{
    valid_utf8_split(bytes, end);
    let head = bytes.subrange(0, end);
    if start == end {
        is_char_boundary_start_end_of_seq(head);
    } else {
        is_char_boundary_iff_not_is_continuation_byte(bytes, start);
        is_char_boundary_iff_not_is_continuation_byte(head, start);
    }
}

/// The places before and after an ASCII byte are character boundaries.
pub proof fn lemma_ascii_boundaries(bytes: Seq<u8>, i: int)
    requires
        valid_utf8(bytes),
        0 <= i < bytes.len(),
        bytes[i] <= 0x7f,
    ensures
        is_char_boundary(bytes, i),
        is_char_boundary(bytes, i + 1),
    decreases bytes.len(),
{
    is_char_boundary_iff_not_is_continuation_byte(bytes, i);
    let n = length_of_first_scalar(bytes);
    let rest = pop_first_scalar(bytes);
    if i < n {
        reveal_with_fuel(is_char_boundary, 3);
        assert(i == 0);
        assert(n == 1);
        is_char_boundary_start_end_of_seq(rest);
    } else {
        lemma_ascii_boundaries(rest, i - n);
    }
}

/// Two slices that follow each other make one.
pub proof fn lemma_slices(s: Seq<char>, start: int, mid: int, end: int)
    requires
        0 <= start <= mid <= end <= byte_len(s),
        is_char_boundary(encode_utf8(s), start),
        is_char_boundary(encode_utf8(s), mid),
        is_char_boundary(encode_utf8(s), end),
    ensures
        byte_slice(s, start, end) == byte_slice(s, start, mid) + byte_slice(s, mid, end),
{
    let bytes = encode_utf8(s);
    lemma_byte_slice(s, start, mid);
    lemma_byte_slice(s, mid, end);
    lemma_byte_slice(s, start, end);
    lemma_encode_concat(byte_slice(s, start, mid), byte_slice(s, mid, end));
    assert(bytes.subrange(start, end) =~= bytes.subrange(start, mid) + bytes.subrange(mid, end));
    lemma_encode_injective(
        byte_slice(s, start, end),
        byte_slice(s, start, mid) + byte_slice(s, mid, end),
    );
}

/// All of a text as a slice of it.
pub proof fn lemma_whole_slice(s: Seq<char>)
    ensures
        byte_slice(s, 0, byte_len(s) as int) == s,
{
    assert(encode_utf8(s).subrange(0, byte_len(s) as int) =~= encode_utf8(s));
    encode_utf8_decode_utf8(s);
}

/// What is left of two texts in a row without their whitespace.
pub proof fn lemma_dense_concat(a: Seq<char>, b: Seq<char>)
    ensures
        dense(a + b) == dense(a) + dense(b),
    decreases b.len(),
{
    if b.len() == 0 {
        assert(a + b =~= a);
        assert(dense(a) + dense(b) =~= dense(a));
    } else {
        lemma_dense_concat(a, b.drop_last());
        assert((a + b).drop_last() =~= a + b.drop_last());
        assert(dense(a + b) =~= dense(a) + dense(b));
    }
}

proof fn lemma_dense_one(c: char)
    requires
        whitespace(c),
    ensures
        dense(seq![c]) == Seq::<char>::empty(),
{
    assert(seq![c].drop_last() =~= seq![]);
    reveal_with_fuel(dense, 2);
}

/// A line feed more makes no difference.
pub proof fn lemma_dense_line_feed(s: Seq<char>)
    ensures
        dense(s.push('\n')) == dense(s),
{
    assert(s.push('\n').drop_last() =~= s);
}

/// Trimming takes whitespace only.
pub proof fn lemma_dense_trim(s: Seq<char>)
    ensures
        dense(trim_start(s)) == dense(s),
        dense(trim_end(s)) == dense(s),
        dense(trim(s)) == dense(s),
{
    lemma_dense_trim_start(s);
    lemma_dense_trim_end(s);
    lemma_dense_trim_end(trim_start(s));
}

proof fn lemma_dense_trim_start(s: Seq<char>)
    ensures
        dense(trim_start(s)) == dense(s),
    decreases s.len(),
{
    if s.len() > 0 && whitespace(s[0]) {
        lemma_dense_trim_start(s.drop_first());
        lemma_dense_concat(seq![s[0]], s.drop_first());
        assert(seq![s[0]] + s.drop_first() =~= s);
        lemma_dense_one(s[0]);
        assert(dense(seq![s[0]]) + dense(s.drop_first()) =~= dense(s.drop_first()));
    }
}

proof fn lemma_dense_trim_end(s: Seq<char>)
    ensures
        dense(trim_end(s)) == dense(s),
    decreases s.len(),
{
    if s.len() > 0 && whitespace(s.last()) {
        lemma_dense_trim_end(s.drop_last());
    }
}

/// Without whitespace, joined texts are the texts in a row, whatever whitespace
/// stands between them.
pub proof fn lemma_dense_join(parts: Seq<Seq<char>>, part: Seq<char>, sep: Seq<char>)
    requires
        dense(sep) == Seq::<char>::empty(),
    ensures
        dense(join(parts.push(part), sep)) == dense(join(parts, sep)) + dense(part),
{
    let all = parts.push(part);
    assert(all.drop_last() =~= parts);
    if parts.len() == 0 {
        assert(dense(join(parts, sep)) + dense(part) =~= dense(part));
    } else {
        lemma_dense_concat(join(parts, sep) + sep, part);
        lemma_dense_concat(join(parts, sep), sep);
        assert(dense(join(parts, sep)) + dense(sep) =~= dense(join(parts, sep)));
    }
}

/// The characters of `s`, one by one.
pub fn chars_of(s: &str) -> (r: Vec<char>)
    ensures
        r@ == s@,
{
    let mut r: Vec<char> = Vec::new();
    for c in it: s.chars()
        invariant
            r@ == it.seq().take(it.index() as int),
            it.seq() == s@,
    {
        r.push(c);
    }
    r
}

/// The text made of `chars[from..to]`.
pub fn text_of(chars: &Vec<char>, from: usize, to: usize) -> (r: String)
    requires
        from <= to <= chars@.len(),
    ensures
        r@ == chars@.subrange(from as int, to as int),
{
    let mut r = String::new();
    let mut i: usize = from;
    while i < to
        invariant
            from <= i <= to <= chars@.len(),
            r@ == chars@.subrange(from as int, i as int),
        decreases to - i,
    {
        r.push(chars[i]);
        i = i + 1;
        assert(r@ =~= chars@.subrange(from as int, i as int));
    }
    r
}

/// How trimming goes on when a character is added at the end.
pub proof fn lemma_trim_push(s: Seq<char>, c: char)
    ensures
        trim_start(s.push(c)) == (if whitespace(c) && trim_start(s).len() == 0 {
            seq![]
        } else {
            trim_start(s).push(c)
        }),
        trim(s.push(c)) == (if whitespace(c) {
            trim(s)
        } else {
            trim_start(s).push(c)
        }),
    decreases s.len(),
{
    let t = s.push(c);
    if s.len() == 0 {
        assert(t.drop_first() =~= seq![]);
        assert(t =~= seq![].push(c));
        reveal_with_fuel(trim_start, 2);
        reveal_with_fuel(trim_end, 2);
    } else if whitespace(s[0]) {
        assert(t.drop_first() =~= s.drop_first().push(c));
        lemma_trim_push(s.drop_first(), c);
    } else {
        assert(t.drop_last() =~= s);
    }
    if trim_start(t).len() > 0 {
        assert(trim_start(t).drop_last() =~= trim_start(s));
    }
}

/// The size in bytes of what is left of `s` when it is trimmed.
pub fn trimmed_len(s: &str) -> (r: usize)
    ensures
        r == byte_len(trim(s@)),
{
    let total: usize = s.as_bytes().len();
    // Bytes from the first visible character on, and up to the last one.
    let mut run: usize = 0;
    let mut kept: usize = 0;
    for c in it: s.chars()
        invariant
            it.seq() == s@,
            total == byte_len(s@),
            run == byte_len(trim_start(s@.take(it.index() as int))),
            kept == byte_len(trim(s@.take(it.index() as int))),
            run <= byte_len(s@.take(it.index() as int)),
            run == 0 <==> trim_start(s@.take(it.index() as int)).len() == 0,
    {
        let ghost before = s@.take(it.index() as int);
        let ghost after = s@.take(it.index() as int + 1);
        let width: usize = char_width(c);
        proof {
            assert(after =~= before.push(c));
            lemma_trim_push(before, c);
            lemma_byte_len_push(before, c);
            lemma_byte_len_push(trim_start(before), c);
            assert(s@ =~= after + s@.skip(it.index() as int + 1));
            lemma_encode_concat(after, s@.skip(it.index() as int + 1));
            lemma_byte_len_bounds(trim_start(after));
        }
        if is_whitespace(c) {
            if run > 0 {
                run = run + width;
            }
        } else {
            run = run + width;
            kept = run;
        }
    }
    proof {
        assert(s@.take(s@.len() as int) =~= s@);
    }
    kept
}

/// The number of bytes that `c` takes.
pub fn char_width(c: char) -> (r: usize)
    ensures
        r == byte_len(seq![c]),
{
    proof {
        lemma_encode_one(c);
    }
    let code: u32 = c as u32;
    if code <= 0x7f {
        1
    } else if code <= 0x7ff {
        2
    } else if code <= 0xffff {
        3
    } else {
        4
    }
}

/// Whether two texts are the same.
pub fn text_eq(a: &str, b: &str) -> (r: bool)
    ensures
        r == (a@ == b@),
{
    let x = a.as_bytes();
    let y = b.as_bytes();
    if x.len() != y.len() {
        return false;
    }
    let mut i: usize = 0;
    while i < x.len()
        invariant
            i <= x@.len(),
            x@.len() == y@.len(),
            x@ == encode_utf8(a@),
            y@ == encode_utf8(b@),
            forall|j: int| 0 <= j < i ==> x@[j] == y@[j],
        decreases x@.len() - i,
    {
        if x[i] != y[i] {
            return false;
        }
        i = i + 1;
    }
    proof {
        assert(x@ =~= y@);
        lemma_encode_injective(a@, b@);
    }
    true
}

/// The text in bytes `start..end` of `s`.
pub fn slice<'a>(s: &'a str, start: usize, end: usize) -> (r: &'a str)
    requires
        start <= end <= byte_len(s@),
        is_char_boundary(encode_utf8(s@), start as int),
        is_char_boundary(encode_utf8(s@), end as int),
    ensures
        r@ == byte_slice(s@, start as int, end as int),
{
    let (head, _rest) = s.split_at(end);
    proof {
        encode_utf8_valid_utf8(s@);
        lemma_boundary_prefix(encode_utf8(s@), start as int, end as int);
    }
    let (_skipped, r) = head.split_at(start);
    proof {
        assert(encode_utf8(r@) =~= encode_utf8(s@).subrange(start as int, end as int));
        encode_utf8_decode_utf8(r@);
    }
    r
}

/// The texts of `parts` in a row, with `sep` between neighbours.
pub fn joined(parts: &Vec<String>, sep: &str) -> (r: String)
    ensures
        r@ == join(views(parts@), sep@),
{
    let mut r = String::new();
    let mut i: usize = 0;
    while i < parts.len()
        invariant
            i <= parts@.len(),
            r@ == join(views(parts@).take(i as int), sep@),
        decreases parts@.len() - i,
    {
        if i > 0 {
            r.append(sep);
        }
        r.append(parts[i].as_str());
        proof {
            let done = views(parts@).take(i as int);
            let more = views(parts@).take(i as int + 1);
            assert(more.drop_last() =~= done);
            assert(more.last() == parts@[i as int]@);
            if i == 0 {
                assert(r@ =~= more[0]);
            }
        }
        i = i + 1;
    }
    proof {
        assert(views(parts@).take(parts@.len() as int) =~= views(parts@));
    }
    r
}

/// Two lists of texts joined make one.
pub proof fn lemma_join_concat(a: Seq<Seq<char>>, b: Seq<Seq<char>>, sep: Seq<char>)
    requires
        a.len() > 0,
        b.len() > 0,
    ensures
        join(a + b, sep) == join(a, sep) + sep + join(b, sep),
    decreases b.len(),
{
    let all = a + b;
    assert(all.drop_last() =~= a + b.drop_last());
    assert(all.last() == b.last());
    if b.len() == 1 {
        assert(a + b.drop_last() =~= a);
        assert(join(all, sep) =~= join(a, sep) + sep + join(b, sep));
    } else {
        lemma_join_concat(a, b.drop_last(), sep);
        assert(join(all, sep) =~= join(a, sep) + sep + join(b, sep));
    }
}

/// A part of a text that is valid by itself starts and ends between characters.
pub proof fn lemma_valid_part(bytes: Seq<u8>, start: int, end: int)
    requires
        valid_utf8(bytes),
        0 <= start < end <= bytes.len(),
        valid_utf8(bytes.subrange(start, end)),
    ensures
        is_char_boundary(bytes, start),
        is_char_boundary(bytes, end),
{
    let part = bytes.subrange(start, end);
    is_char_boundary_start_end_of_seq(part);
    is_char_boundary_iff_not_is_continuation_byte(part, 0);
    is_char_boundary_iff_not_is_continuation_byte(bytes, start);
    assert(part[0] == bytes[start]);
    valid_utf8_split(bytes, start);
    let rest = bytes.subrange(start, bytes.len() as int);
    let n = end - start;
    assert(rest.subrange(0, n) =~= part);
    if end < bytes.len() {
        let more = rest.subrange(n, rest.len() as int);
        if !valid_utf8(more) {
            partial_valid_partial_invalid_utf8(rest, n);
        }
        is_char_boundary_start_end_of_seq(more);
        is_char_boundary_iff_not_is_continuation_byte(more, 0);
        assert(more[0] == bytes[end]);
        is_char_boundary_iff_not_is_continuation_byte(bytes, end);
    } else {
        is_char_boundary_start_end_of_seq(bytes);
    }
}

/// Whether `s` is nothing but whitespace.
pub open spec fn all_whitespace(s: Seq<char>) -> bool {
    forall|i: int| 0 <= i < s.len() ==> whitespace(#[trigger] s[i])
}

/// Trimming a text at its start takes all whitespace there, and nothing else.
pub proof fn trimming_the_start_takes_all_whitespace(s: Seq<char>)
    ensures
        trim_start(s).len() <= s.len(),
        s.skip(s.len() - trim_start(s).len()) == trim_start(s),
        all_whitespace(s.take(s.len() - trim_start(s).len())),
        trim_start(s).len() > 0 ==> !whitespace(trim_start(s)[0]),
    decreases s.len(),
{
    if s.len() > 0 && whitespace(s[0]) {
        let rest = s.drop_first();
        trimming_the_start_takes_all_whitespace(rest);
        let n = s.len() - trim_start(s).len();
        assert(s.skip(n) =~= rest.skip(n - 1));
        assert forall|i: int| 0 <= i < n implies whitespace(#[trigger] s.take(n)[i]) by {
            if i > 0 {
                assert(rest.take(n - 1)[i - 1] == s[i]);
            }
        }
    } else {
        assert(s.skip(0) =~= s);
    }
}

/// Trimming a text at its end takes all whitespace there, and nothing else.
pub proof fn trimming_the_end_takes_all_whitespace(s: Seq<char>)
    ensures
        trim_end(s).len() <= s.len(),
        s.take(trim_end(s).len() as int) == trim_end(s),
        all_whitespace(s.skip(trim_end(s).len() as int)),
        trim_end(s).len() > 0 ==> !whitespace(trim_end(s).last()),
    decreases s.len(),
{
    if s.len() > 0 && whitespace(s.last()) {
        let rest = s.drop_last();
        trimming_the_end_takes_all_whitespace(rest);
        let n = trim_end(s).len() as int;
        assert(s.take(n) =~= rest.take(n));
        assert forall|i: int| 0 <= i < s.skip(n).len() implies whitespace(
            #[trigger] s.skip(n)[i],
        ) by {
            if i < rest.len() - n {
                assert(rest.skip(n)[i] == s[n + i]);
            }
        }
    } else {
        assert(s.take(s.len() as int) =~= s);
    }
}

/// Trimming a text takes all whitespace around it, and nothing else.
pub proof fn trimming_takes_all_whitespace_around(s: Seq<char>)
    ensures
        exists|a: Seq<char>, b: Seq<char>|
            s == a + trim(s) + b && #[trigger] all_whitespace(a) && #[trigger] all_whitespace(b),
        trim(s).len() > 0 ==> !whitespace(trim(s)[0]) && !whitespace(trim(s).last()),
{
    let t = trim_start(s);
    trimming_the_start_takes_all_whitespace(s);
    trimming_the_end_takes_all_whitespace(t);
    let a = s.take(s.len() - t.len());
    let b = t.skip(trim(s).len() as int);
    assert(s =~= a + trim(s) + b);
    assert(all_whitespace(a) && all_whitespace(b));
    if trim(s).len() > 0 {
        assert(trim(s)[0] == t[0]);
    }
}

/// A text without its whitespace is all of its other characters.
pub proof fn all_but_whitespace_is_kept(s: Seq<char>)
    ensures
        dense(s) == s.filter(|c: char| !whitespace(c)),
    decreases s.len(),
{
    reveal(Seq::filter);
    if s.len() > 0 {
        all_but_whitespace_is_kept(s.drop_last());
    }
}

/// Where part `k` starts in the joined parts.
pub open spec fn part_start(parts: Seq<Seq<char>>, sep: Seq<char>, k: int) -> int
    decreases k,
{
    if k <= 0 {
        0
    } else {
        part_start(parts, sep, k - 1) + parts[k - 1].len() + sep.len()
    }
}

proof fn lemma_part_start(a: Seq<Seq<char>>, b: Seq<Seq<char>>, sep: Seq<char>, k: int)
    requires
        k <= a.len(),
        k <= b.len(),
        forall|i: int| 0 <= i < k ==> #[trigger] a[i] == b[i],
    ensures
        part_start(a, sep, k) == part_start(b, sep, k),
        part_start(a, sep, k) >= 0,
    decreases k,
{
    if k > 0 {
        lemma_part_start(a, b, sep, k - 1);
        assert(a[k - 1] == b[k - 1]);
    }
}

/// Joined texts hold every part, in its order, with a separator before all but the
/// first, and nothing else.
pub proof fn joined_parts_stand_in_their_order(parts: Seq<Seq<char>>, sep: Seq<char>, k: int)
    requires
        0 <= k < parts.len(),
    ensures
        ({
            let all = join(parts, sep);
            let start = part_start(parts, sep, k);
            &&& 0 <= start <= start + parts[k].len() <= all.len()
            &&& all.subrange(start, start + parts[k].len()) == parts[k]
            &&& k > 0 ==> all.subrange(start - sep.len(), start) == sep
            &&& k == parts.len() - 1 ==> all.len() == start + parts[k].len()
        }),
        join(Seq::empty(), sep).len() == 0,
    decreases parts.len(),
{
    let all = join(parts, sep);
    let start = part_start(parts, sep, k);
    lemma_part_start(parts, parts, sep, k);
    if parts.len() == 1 {
        assert(all.subrange(0, parts[0].len() as int) =~= parts[0]);
    } else {
        let fewer = parts.drop_last();
        let n = parts.len() - 2;
        joined_parts_stand_in_their_order(fewer, sep, n);
        lemma_part_start(fewer, parts, sep, n);
        assert(join(fewer, sep).len() == part_start(parts, sep, n) + parts[n].len());
        if k < parts.len() - 1 {
            joined_parts_stand_in_their_order(fewer, sep, k);
            lemma_part_start(fewer, parts, sep, k);
            let rest = join(fewer, sep);
            assert(all.subrange(start, start + parts[k].len()) =~= rest.subrange(
                start,
                start + parts[k].len(),
            ));
            if k > 0 {
                lemma_part_start(parts, parts, sep, k - 1);
                assert(all.subrange(start - sep.len(), start) =~= rest.subrange(
                    start - sep.len(),
                    start,
                ));
            }
        } else {
            assert(start == join(fewer, sep).len() + sep.len());
            assert(all.subrange(start, start + parts[k].len()) =~= parts[k]);
            assert(all.subrange(start - sep.len(), start) =~= sep);
        }
    }
}

} // verus!
