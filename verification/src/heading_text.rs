//! The text of a heading: how it is stored, and how two spellings of a heading
//! are compared.
use vstd::prelude::*;
use vstd::string::*;

use crate::text::{
    chars_of, control, is_control, is_whitespace, join, text_of, trim, trim_end, whitespace,
};

verus! {

/// What stands between the segments of a key. It is a control character, and no
/// normalized heading text holds one, so that the heading `"Input > Output"`
/// and the path `["Input", "Output"]` have different keys.
pub const HEADING_KEY_SEPARATOR: char = '\u{1f}';

/// How many characters that take part in matching a stored heading text holds
/// at most.
pub const MAX_HEADING_TEXT_CHARS: usize = 200;

/// How many characters of any kind a stored heading text holds at most, so that
/// a heading padded with joiners is bounded too.
pub const MAX_HEADING_TEXT_RAW_CHARS: usize = 400;

/// Invisible characters that steer line breaking at most: soft hyphen,
/// zero-width space, word joiner, the invisible math operators and the byte
/// order mark. A heading reads the same without them.
pub open spec fn layout_only(c: char) -> bool {
    ||| c == '\u{ad}'
    ||| c == '\u{200b}'
    ||| '\u{2060}' <= c <= '\u{2064}'
    ||| c == '\u{feff}'
}

/// Invisible characters that change how a text is rendered: joiners, direction
/// marks and controls, the Mongolian vowel separator, the deprecated shaping
/// controls and the variation selectors.
pub open spec fn rendering_format(c: char) -> bool {
    ||| c == '\u{61c}'
    ||| c == '\u{180e}'
    ||| '\u{200c}' <= c <= '\u{200f}'
    ||| '\u{202a}' <= c <= '\u{202e}'
    ||| '\u{2066}' <= c <= '\u{206f}'
    ||| '\u{fe00}' <= c <= '\u{fe0f}'
}

/// The characters that matching does not look at.
pub open spec fn ignored(c: char) -> bool {
    layout_only(c) || rendering_format(c)
}

/// Whether `c` never changes how a heading is rendered.
pub fn is_layout_only_char(c: char) -> (r: bool)
    ensures
        r == layout_only(c),
{
    c == '\u{ad}' || c == '\u{200b}' || ('\u{2060}' <= c && c <= '\u{2064}') || c == '\u{feff}'
}

/// Whether `c` is invisible and still changes how a heading is rendered.
pub fn is_rendering_format_char(c: char) -> (r: bool)
    ensures
        r == rendering_format(c),
{
    c == '\u{61c}' || c == '\u{180e}' || ('\u{200c}' <= c && c <= '\u{200f}') || ('\u{202a}' <= c
        && c <= '\u{202e}') || ('\u{2066}' <= c && c <= '\u{206f}') || ('\u{fe00}' <= c && c
        <= '\u{fe0f}')
}

/// Whether matching does not look at `c`.
pub fn is_ignored_in_matching(c: char) -> (r: bool)
    ensures
        r == ignored(c),
{
    is_layout_only_char(c) || is_rendering_format_char(c)
}

/// What stands between words: whitespace and control characters.
pub open spec fn separator(c: char) -> bool {
    whitespace(c) || control(c)
}

/// The words of `s`: the segments between its separators. Two separators in a
/// row have an empty word between them.
pub open spec fn words(s: Seq<char>) -> Seq<Seq<char>>
    decreases s.len(),
{
    if s.len() == 0 {
        seq![seq![]]
    } else {
        let before = words(s.drop_last());
        if separator(s.last()) {
            before.push(seq![])
        } else {
            before.drop_last().push(before.last().push(s.last()))
        }
    }
}

/// A word with something in it that matching looks at.
pub open spec fn legible(word: Seq<char>) -> bool {
    exists|i: int| 0 <= i < word.len() && !ignored(#[trigger] word[i])
}

/// `word` as it is stored: without the characters that never change how it is
/// rendered.
pub open spec fn stored(word: Seq<char>) -> Seq<char>
    decreases word.len(),
{
    if word.len() == 0 {
        seq![]
    } else if layout_only(word.last()) {
        stored(word.drop_last())
    } else {
        stored(word.drop_last()).push(word.last())
    }
}

/// The legible ones of `ws`, as they are stored.
pub open spec fn stored_words(ws: Seq<Seq<char>>) -> Seq<Seq<char>>
    decreases ws.len(),
{
    if ws.len() == 0 {
        seq![]
    } else if legible(ws.last()) {
        stored_words(ws.drop_last()).push(stored(ws.last()))
    } else {
        stored_words(ws.drop_last())
    }
}

/// The legible words of `s`, with single spaces between them.
pub open spec fn collapsed(s: Seq<char>) -> Seq<char> {
    join(stored_words(words(s)), seq![' '])
}

/// The number of characters of `s` that count as matching.
pub open spec fn matching(s: Seq<char>) -> nat
    decreases s.len(),
{
    if s.len() == 0 {
        0
    } else if rendering_format(s.last()) {
        matching(s.drop_last())
    } else {
        matching(s.drop_last()) + 1
    }
}

/// Whether `p` has no room for `c`.
pub open spec fn full(p: Seq<char>, c: char) -> bool {
    ||| !rendering_format(c) && matching(p) == MAX_HEADING_TEXT_CHARS
    ||| p.len() == MAX_HEADING_TEXT_RAW_CHARS
}

/// The characters of `s` up to the first one that there is no room for.
pub open spec fn capped(s: Seq<char>) -> Seq<char>
    decreases s.len(),
{
    if s.len() == 0 {
        seq![]
    } else {
        let p = capped(s.drop_last());
        if p.len() == s.len() - 1 && !full(p, s.last()) {
            s
        } else {
            p
        }
    }
}

/// Where the last word of `p` starts, if words are separated by spaces.
pub open spec fn tail_start(p: Seq<char>) -> int
    decreases p.len(),
{
    if p.len() == 0 {
        0
    } else if p.last() == ' ' {
        p.len() as int
    } else {
        tail_start(p.drop_last())
    }
}

/// Whether the last word of `p` has a character that counts as matching.
pub open spec fn tail_matches(p: Seq<char>) -> bool {
    exists|i: int| tail_start(p) <= i < p.len() && !rendering_format(#[trigger] p[i])
}

/// `p` without its last word and the space before it, if that word has no
/// character that counts as matching.
pub open spec fn without_bare_tail(p: Seq<char>) -> Seq<char> {
    if tail_matches(p) {
        p
    } else if tail_start(p) == 0 {
        seq![]
    } else {
        p.take(tail_start(p) - 1)
    }
}

/// The text that is stored for a heading that reads `s`.
pub open spec fn clean(s: Seq<char>) -> Seq<char> {
    without_bare_tail(capped(collapsed(s)))
}

/// A word as `clean` leaves it: something to read, no separator in it, and no
/// character that never changes how it is rendered.
pub open spec fn tidy_word(w: Seq<char>) -> bool {
    &&& legible(w)
    &&& forall|i: int| 0 <= i < w.len() ==> !separator(#[trigger] w[i]) && !layout_only(w[i])
}

proof fn lemma_legible_push(w: Seq<char>, c: char)
    ensures
        legible(w.push(c)) == (legible(w) || !ignored(c)),
{
    let x = w.push(c);
    if legible(w) {
        let i = choose|i: int| 0 <= i < w.len() && !ignored(#[trigger] w[i]);
        assert(x[i] == w[i]);
    }
    if !ignored(c) {
        assert(x[w.len() as int] == c);
    }
    if legible(x) {
        let i = choose|i: int| 0 <= i < x.len() && !ignored(#[trigger] x[i]);
        if i < w.len() {
            assert(w[i] == x[i]);
        }
    }
}

proof fn lemma_stored(w: Seq<char>)
    ensures
        legible(stored(w)) == legible(w),
        (forall|i: int| 0 <= i < w.len() ==> !separator(#[trigger] w[i])) ==> (forall|i: int|
            0 <= i < stored(w).len() ==> !separator(#[trigger] stored(w)[i])),
        forall|i: int| 0 <= i < stored(w).len() ==> !layout_only(#[trigger] stored(w)[i]),
        (forall|i: int| 0 <= i < w.len() ==> !layout_only(#[trigger] w[i])) ==> stored(w) == w,
    decreases w.len(),
{
    if w.len() > 0 {
        let v = w.drop_last();
        lemma_stored(v);
        assert(v.push(w.last()) =~= w);
        lemma_legible_push(v, w.last());
        lemma_legible_push(stored(v), w.last());
    }
}

/// There is always a last word, and no word has a separator in it.
pub proof fn lemma_words(s: Seq<char>)
    ensures
        words(s).len() >= 1,
        forall|k: int, i: int|
            0 <= k < words(s).len() && 0 <= i < words(s)[k].len() ==> !separator(
                #[trigger] words(s)[k][i],
            ),
    decreases s.len(),
{
    if s.len() > 0 {
        lemma_words(s.drop_last());
    }
}

pub proof fn lemma_stored_words(ws: Seq<Seq<char>>)
    requires
        forall|k: int, i: int|
            0 <= k < ws.len() && 0 <= i < ws[k].len() ==> !separator(#[trigger] ws[k][i]),
    ensures
        forall|k: int|
            0 <= k < stored_words(ws).len() ==> tidy_word(#[trigger] stored_words(ws)[k]),
    decreases ws.len(),
{
    if ws.len() > 0 {
        let vs = ws.drop_last();
        assert forall|k: int, i: int| 0 <= k < vs.len() && 0 <= i < vs[k].len() implies !separator(
            #[trigger] vs[k][i],
        ) by {
            assert(ws[k][i] == vs[k][i]);
        }
        lemma_stored_words(vs);
        let w = ws.last();
        assert forall|i: int| 0 <= i < w.len() implies !separator(#[trigger] w[i]) by {
            assert(ws[ws.len() - 1][i] == w[i]);
        }
        lemma_stored(w);
        assert forall|k: int| 0 <= k < stored_words(ws).len() implies tidy_word(
            #[trigger] stored_words(ws)[k],
        ) by {
            if k < stored_words(vs).len() {
                assert(tidy_word(stored_words(vs)[k]));
            }
        }
    }
}

/// Joined words are empty only if there are none.
pub proof fn lemma_join_tidy(ws: Seq<Seq<char>>)
    requires
        forall|k: int| 0 <= k < ws.len() ==> tidy_word(#[trigger] ws[k]),
    ensures
        join(ws, seq![' ']).len() == 0 <==> ws.len() == 0,
{
    if ws.len() == 1 {
        assert(tidy_word(ws[0]));
    }
}

/// Adds one more word to the words joined in `out`.
fn append_word(out: &mut Vec<char>, word: &Vec<char>)
    ensures
        final(out)@ == (if old(out)@.len() == 0 {
            word@
        } else {
            old(out)@ + seq![' '] + word@
        }),
{
    if out.len() > 0 {
        out.push(' ');
    }
    let ghost start = out@;
    let mut i: usize = 0;
    while i < word.len()
        invariant
            i <= word@.len(),
            out@ == start + word@.take(i as int),
        decreases word@.len() - i,
    {
        out.push(word[i]);
        i = i + 1;
        assert(out@ =~= start + word@.take(i as int));
    }
    assert(word@.take(word@.len() as int) =~= word@);
}

/// The legible words of `s`, with single spaces between them.
fn collapsed_chars(s: &Vec<char>) -> (r: Vec<char>)
    ensures
        r@ == collapsed(s@),
{
    let mut out: Vec<char> = Vec::new();
    let mut word: Vec<char> = Vec::new();
    let mut seen = false;
    let mut i: usize = 0;
    proof {
        assert(s@.take(0) =~= seq![]);
        assert(words(s@.take(0)).drop_last() =~= seq![]);
    }
    while i < s.len()
        invariant
            i <= s@.len(),
            words(s@.take(i as int)).len() >= 1,
            out@ == join(stored_words(words(s@.take(i as int)).drop_last()), seq![' ']),
            word@ == stored(words(s@.take(i as int)).last()),
            seen == legible(words(s@.take(i as int)).last()),
        decreases s@.len() - i,
    {
        let c = s[i];
        let ghost before = s@.take(i as int);
        let ghost after = s@.take(i + 1);
        proof {
            assert(after.drop_last() =~= before);
            lemma_words(before);
        }
        if is_whitespace(c) || is_control(c) {
            proof {
                lemma_stored_words_part(words(before));
                assert(words(after).drop_last() =~= words(before));
                assert(stored_words(words(before)).drop_last() =~= stored_words(
                    words(before).drop_last(),
                ) || !seen);
            }
            if seen {
                append_word(&mut out, &word);
            }
            word = Vec::new();
            seen = false;
        } else {
            proof {
                let w = words(before).last();
                assert(words(after).drop_last() =~= words(before).drop_last());
                assert(w.push(c).drop_last() =~= w);
                lemma_legible_push(w, c);
            }
            if !is_layout_only_char(c) {
                word.push(c);
            }
            if !is_ignored_in_matching(c) {
                seen = true;
            }
        }
        i = i + 1;
    }
    proof {
        assert(s@.take(s@.len() as int) =~= s@);
        lemma_words(s@);
        lemma_stored_words_part(words(s@));
        assert(stored_words(words(s@)).drop_last() =~= stored_words(words(s@).drop_last())
            || !seen);
    }
    if seen {
        append_word(&mut out, &word);
    }
    out
}

/// The words before the last one are joined to nothing only if none of them is
/// stored.
proof fn lemma_stored_words_part(ws: Seq<Seq<char>>)
    requires
        ws.len() >= 1,
        forall|k: int, i: int|
            0 <= k < ws.len() && 0 <= i < ws[k].len() ==> !separator(#[trigger] ws[k][i]),
    ensures
        join(stored_words(ws.drop_last()), seq![' ']).len() == 0 <==> stored_words(
            ws.drop_last(),
        ).len() == 0,
{
    let vs = ws.drop_last();
    assert forall|k: int, i: int| 0 <= k < vs.len() && 0 <= i < vs[k].len() implies !separator(
        #[trigger] vs[k][i],
    ) by {
        assert(ws[k][i] == vs[k][i]);
    }
    lemma_stored_words(vs);
    lemma_join_tidy(stored_words(vs));
}

/// The first character without room ends the text.
proof fn lemma_capped_stops(t: Seq<char>, n: int)
    requires
        0 <= n < t.len(),
        capped(t.take(n)) == t.take(n),
        full(t.take(n), t[n]),
    ensures
        capped(t) == t.take(n),
    decreases t.len(),
{
    let u = t.drop_last();
    if n < u.len() {
        assert(u.take(n) =~= t.take(n));
        lemma_capped_stops(u, n);
    } else {
        assert(u =~= t.take(n));
    }
}

/// How the last word of a text goes on.
proof fn lemma_tail_push(p: Seq<char>, c: char)
    ensures
        0 <= tail_start(p) <= p.len(),
        tail_start(p.push(c)) == (if c == ' ' {
            p.len() as int + 1
        } else {
            tail_start(p)
        }),
        tail_matches(p.push(c)) == (c != ' ' && (tail_matches(p) || !rendering_format(c))),
    decreases p.len(),
{
    if p.len() > 0 {
        lemma_tail_push(p.drop_last(), p.last());
        assert(p.drop_last().push(p.last()) =~= p);
    }
    let q = p.push(c);
    assert(q.drop_last() =~= p);
    if c != ' ' {
        if tail_matches(p) {
            let i = choose|i: int| tail_start(p) <= i < p.len() && !rendering_format(#[trigger] p[i]);
            assert(q[i] == p[i]);
        }
        if !rendering_format(c) {
            assert(q[p.len() as int] == c);
        }
        if tail_matches(q) {
            let i = choose|i: int| tail_start(q) <= i < q.len() && !rendering_format(#[trigger] q[i]);
            if i < p.len() {
                assert(p[i] == q[i]);
            }
        }
    }
}

/// The text that is stored for a heading that reads `s`:
///
/// 1. `s` is split into words at whitespace and control characters. A word
///    without a character that matching looks at is dropped, the others are put
///    together again with single spaces.
/// 2. Characters that never change how a heading is rendered are removed.
/// 3. The text ends where it would hold more than [`MAX_HEADING_TEXT_CHARS`]
///    characters that count as matching, or more than
///    [`MAX_HEADING_TEXT_RAW_CHARS`] in all. A last word that this leaves
///    without a matching character is dropped, and the space before it.
pub fn clean_heading_text(s: &str) -> (r: String)
    ensures
        r@ == clean(s@),
{
    let input = chars_of(s);
    let text = collapsed_chars(&input);
    let mut n: usize = 0;
    let mut count: usize = 0;
    let mut tail: usize = 0;
    let mut tail_seen = false;
    proof {
        assert(text@.take(0) =~= seq![]);
    }
    while n < text.len()
        invariant
            n <= text@.len(),
            capped(text@.take(n as int)) == text@.take(n as int),
            count == matching(text@.take(n as int)),
            count <= n,
            tail == tail_start(text@.take(n as int)),
            tail_seen == tail_matches(text@.take(n as int)),
            tail <= n,
            n == text@.len() ==> text@.take(n as int) == text@,
        ensures
            n <= text@.len(),
            capped(text@) == text@.take(n as int),
            tail == tail_start(text@.take(n as int)),
            tail_seen == tail_matches(text@.take(n as int)),
            tail <= n,
        decreases text@.len() - n,
    {
        let c = text[n];
        let counts = !is_rendering_format_char(c);
        if (counts && count == MAX_HEADING_TEXT_CHARS) || n == MAX_HEADING_TEXT_RAW_CHARS {
            proof {
                lemma_capped_stops(text@, n as int);
            }
            break;
        }
        proof {
            assert(text@.take(n as int).push(c) =~= text@.take(n + 1));
            assert(text@.take(n + 1).drop_last() =~= text@.take(n as int));
            lemma_tail_push(text@.take(n as int), c);
            if n + 1 == text@.len() {
                assert(text@.take(n + 1) =~= text@);
            }
        }
        if c == ' ' {
            tail = n + 1;
            tail_seen = false;
        } else if counts {
            tail_seen = true;
        }
        if counts {
            count = count + 1;
        }
        n = n + 1;
    }
    let keep: usize = if tail_seen {
        n
    } else if tail == 0 {
        0
    } else {
        tail - 1
    };
    let ghost p = text@.take(n as int);
    proof {
        assert(p.take(keep as int) =~= text@.subrange(0, keep as int));
        assert(p.take(n as int) =~= p);
        assert(p.take(0) =~= seq![]);
    }
    text_of(&text, 0, keep)
}

/// A text of tidy words with single spaces between them.
pub open spec fn tidy(t: Seq<char>) -> bool {
    &&& spaced(t)
    &&& t.len() > 0 ==> forall|k: int| 0 <= k < words(t).len() ==> tidy_word(#[trigger] words(t)[k])
}

/// A text in which the only separators are spaces.
pub open spec fn spaced(t: Seq<char>) -> bool {
    forall|i: int| 0 <= i < t.len() && separator(#[trigger] t[i]) ==> t[i] == ' '
}

proof fn lemma_words_append(a: Seq<char>, w: Seq<char>)
    requires
        forall|i: int| 0 <= i < w.len() ==> !separator(#[trigger] w[i]),
    ensures
        words(a + seq![' '] + w) == words(a).push(w),
        words(w) == seq![w],
    decreases w.len(),
{
    let t = a + seq![' '] + w;
    if w.len() == 0 {
        assert(t.drop_last() =~= a);
        assert(w =~= seq![]);
    } else {
        let v = w.drop_last();
        lemma_words_append(a, v);
        assert(t.drop_last() =~= a + seq![' '] + v);
        assert(v.push(w.last()) =~= w);
        assert(words(t) =~= words(a).push(w));
        assert(words(w) =~= seq![w]);
    }
}

/// The words of joined words are these words.
proof fn lemma_words_join(ws: Seq<Seq<char>>)
    requires
        forall|k: int| 0 <= k < ws.len() ==> tidy_word(#[trigger] ws[k]),
    ensures
        ws.len() > 0 ==> words(join(ws, seq![' '])) == ws,
        spaced(join(ws, seq![' '])),
    decreases ws.len(),
{
    if ws.len() == 1 {
        assert(tidy_word(ws[0]));
        lemma_words_append(seq![], ws[0]);
        assert(ws =~= seq![ws[0]]);
    } else if ws.len() > 1 {
        let vs = ws.drop_last();
        assert forall|k: int| 0 <= k < vs.len() implies tidy_word(#[trigger] vs[k]) by {
            assert(tidy_word(ws[k]));
        }
        lemma_words_join(vs);
        assert(tidy_word(ws[ws.len() - 1]));
        lemma_words_append(join(vs, seq![' ']), ws.last());
        assert(vs.push(ws.last()) =~= ws);
        let t = join(ws, seq![' ']);
        let a = join(vs, seq![' ']);
        assert forall|i: int| 0 <= i < t.len() && separator(#[trigger] t[i]) implies t[i] == ' ' by {
            if i < a.len() {
                assert(t[i] == a[i]);
            } else if i > a.len() {
                assert(t[i] == ws.last()[i - a.len() - 1]);
            }
        }
    }
}

/// A text with spaces for its only separators is its words, joined.
proof fn lemma_join_words(t: Seq<char>)
    requires
        spaced(t),
    ensures
        join(words(t), seq![' ']) == t,
    decreases t.len(),
{
    lemma_words(t);
    if t.len() > 0 {
        let u = t.drop_last();
        assert forall|i: int| 0 <= i < u.len() && separator(#[trigger] u[i]) implies u[i] == ' ' by {
            assert(t[i] == u[i]);
        }
        lemma_join_words(u);
        lemma_words(u);
        let ws = words(u);
        let xs = words(t);
        if separator(t.last()) {
            assert(t[t.len() - 1] == ' ');
            assert(xs.drop_last() =~= ws);
            assert(join(xs, seq![' ']) =~= t);
        } else {
            assert(xs.drop_last() =~= ws.drop_last());
            assert(xs.last() == ws.last().push(t.last()));
            assert(join(xs, seq![' ']) =~= join(ws, seq![' ']).push(t.last()));
            assert(u.push(t.last()) =~= t);
        }
    }
}

proof fn lemma_tidy_stored_words(ws: Seq<Seq<char>>)
    requires
        forall|k: int| 0 <= k < ws.len() ==> tidy_word(#[trigger] ws[k]),
    ensures
        stored_words(ws) == ws,
    decreases ws.len(),
{
    if ws.len() > 0 {
        let vs = ws.drop_last();
        assert forall|k: int| 0 <= k < vs.len() implies tidy_word(#[trigger] vs[k]) by {
            assert(tidy_word(ws[k]));
        }
        lemma_tidy_stored_words(vs);
        assert(tidy_word(ws[ws.len() - 1]));
        lemma_stored(ws.last());
        assert(vs.push(ws.last()) =~= ws);
    }
}

/// Collapsing makes a text tidy, and leaves a tidy text as it is.
proof fn lemma_collapsed_tidy(s: Seq<char>)
    ensures
        tidy(collapsed(s)),
        tidy(s) ==> collapsed(s) == s,
{
    let ws = stored_words(words(s));
    lemma_words(s);
    lemma_stored_words(words(s));
    lemma_words_join(ws);
    lemma_join_tidy(ws);
    if tidy(s) {
        if s.len() == 0 {
            assert(words(s) =~= seq![seq![]]);
            assert(!legible(words(s).last()));
            assert(words(s).drop_last() =~= seq![]);
            assert(stored_words(words(s).drop_last()) =~= seq![]);
            assert(collapsed(s) =~= s);
        } else {
            lemma_tidy_stored_words(words(s));
            lemma_join_words(s);
        }
    }
}

/// The words of the start of a text are words of the text, but for the last,
/// which the start may cut short.
proof fn lemma_words_take(t: Seq<char>, n: int)
    requires
        0 <= n <= t.len(),
    ensures
        1 <= words(t.take(n)).len() <= words(t).len(),
        forall|k: int|
            0 <= k < words(t.take(n)).len() - 1 ==> #[trigger] words(t.take(n))[k] == words(t)[k],
    decreases t.len(),
{
    lemma_words(t);
    lemma_words(t.take(n));
    if n == t.len() {
        assert(t.take(n) =~= t);
    } else {
        let u = t.drop_last();
        lemma_words_take(u, n);
        lemma_words(u);
        assert(u.take(n) =~= t.take(n));
    }
}

/// What the last word of a text with spaces for its only separators is.
proof fn lemma_tail_words(p: Seq<char>)
    requires
        spaced(p),
    ensures
        0 <= tail_start(p) <= p.len(),
        words(p).len() >= 1,
        words(p).last() == p.skip(tail_start(p)),
        tail_start(p) == 0 ==> words(p).len() == 1,
        tail_start(p) > 0 ==> p[tail_start(p) - 1] == ' ' && words(p.take(tail_start(p) - 1))
            == words(p).drop_last() && words(p).len() > 1,
    decreases p.len(),
{
    lemma_words(p);
    if p.len() == 0 {
        assert(words(p).last() =~= p.skip(0));
    } else {
        let q = p.drop_last();
        assert forall|i: int| 0 <= i < q.len() && separator(#[trigger] q[i]) implies q[i] == ' ' by {
            assert(p[i] == q[i]);
        }
        lemma_tail_words(q);
        let k = tail_start(p);
        if p.last() == ' ' {
            assert(p.take(k - 1) =~= q);
            assert(words(p).drop_last() =~= words(q));
            assert(p.skip(k) =~= seq![]);
        } else {
            assert(p[p.len() - 1] == p.last());
            assert(!separator(p.last()));
            assert(p.skip(k) =~= q.skip(k).push(p.last()));
            if k > 0 {
                assert(p.take(k - 1) =~= q.take(k - 1));
            }
            assert(words(p).drop_last() =~= words(q).drop_last());
        }
    }
}

/// However a tidy text is cut, it is tidy again without its bare tail.
proof fn lemma_cut_tidy(t: Seq<char>, n: int)
    requires
        tidy(t),
        0 <= n <= t.len(),
    ensures
        tidy(without_bare_tail(t.take(n))),
        tail_matches(without_bare_tail(t.take(n))) || without_bare_tail(t.take(n)).len() == 0,
{
    let p = t.take(n);
    let ws = words(p);
    lemma_words(p);
    lemma_words(t);
    lemma_no_layout(t);
    assert forall|i: int| 0 <= i < p.len() && separator(#[trigger] p[i]) implies p[i] == ' ' by {
        assert(t[i] == p[i]);
    }
    lemma_words_take(t, n);
    lemma_tail_words(p);
    let k = tail_start(p);
    assert forall|j: int| 0 <= j < ws.len() - 1 implies tidy_word(#[trigger] ws[j]) by {
        assert(tidy_word(words(t)[j]));
    }
    if tail_matches(p) {
        let i = choose|i: int| k <= i < p.len() && !rendering_format(#[trigger] p[i]);
        assert(t[i] == p[i]);
        assert(ws.last()[i - k] == p[i]);
        assert(legible(ws.last()));
        assert forall|j: int| 0 <= j < ws.len() implies tidy_word(#[trigger] ws[j]) by {
            if j == ws.len() - 1 {
                assert forall|m: int| 0 <= m < ws[j].len() implies !separator(#[trigger] ws[j][m])
                    && !layout_only(ws[j][m]) by {
                    assert(ws[j][m] == t[k + m]);
                }
            }
        }
    } else if k > 0 {
        let q = p.take(k - 1);
        assert(words(q) =~= ws.drop_last());
        assert forall|i: int| 0 <= i < q.len() && separator(#[trigger] q[i]) implies q[i] == ' ' by {
            assert(p[i] == q[i]);
        }
        if q.len() > 0 {
            assert forall|j: int| 0 <= j < words(q).len() implies tidy_word(
                #[trigger] words(q)[j],
            ) by {
                assert(tidy_word(ws[j]));
            }
            lemma_tidy_tail(q);
        }
    }
}

/// No character of a tidy text is one of those that never change how it is
/// rendered.
proof fn lemma_no_layout(t: Seq<char>)
    requires
        tidy(t),
    ensures
        forall|i: int| 0 <= i < t.len() ==> !layout_only(#[trigger] t[i]),
{
    if t.len() > 0 {
        lemma_no_layout_words(t);
    }
}

proof fn lemma_no_layout_words(t: Seq<char>)
    requires
        forall|k: int, i: int|
            0 <= k < words(t).len() && 0 <= i < words(t)[k].len() ==> !layout_only(
                #[trigger] words(t)[k][i],
            ),
    ensures
        forall|i: int| 0 <= i < t.len() && !separator(#[trigger] t[i]) ==> !layout_only(t[i]),
    decreases t.len(),
{
    if t.len() > 0 {
        let u = t.drop_last();
        lemma_words(u);
        let ws = words(u);
        let xs = words(t);
        assert forall|k: int, i: int| 0 <= k < ws.len() && 0 <= i < ws[k].len() implies !layout_only(
            #[trigger] ws[k][i],
        ) by {
            assert(xs[k][i] == ws[k][i]);
        }
        lemma_no_layout_words(u);
        if !separator(t.last()) {
            let w = xs.last();
            assert(xs[xs.len() - 1][w.len() - 1] == t.last());
        }
        assert forall|i: int| 0 <= i < t.len() && !separator(#[trigger] t[i]) implies !layout_only(
            t[i],
        ) by {
            if i < u.len() {
                assert(u[i] == t[i]);
            }
        }
    }
}

/// The last word of a tidy text has a character that counts as matching.
proof fn lemma_tidy_tail(t: Seq<char>)
    requires
        tidy(t),
        t.len() > 0,
    ensures
        tail_matches(t),
{
    lemma_tail_words(t);
    let w = words(t).last();
    assert(tidy_word(words(t)[words(t).len() - 1]));
    let i = choose|i: int| 0 <= i < w.len() && !ignored(#[trigger] w[i]);
    assert(t[tail_start(t) + i] == w[i]);
}

proof fn lemma_matching_take(t: Seq<char>, i: int, j: int)
    requires
        0 <= i <= j <= t.len(),
    ensures
        matching(t.take(i)) <= matching(t.take(j)) <= matching(t.take(i)) + (j - i),
    decreases j - i,
{
    if i < j {
        lemma_matching_take(t, i, j - 1);
        assert(t.take(j).drop_last() =~= t.take(j - 1));
    }
}

/// Capping keeps a start of the text that fits, and it ends only where there is
/// no room.
pub proof fn lemma_capped(t: Seq<char>)
    ensures
        capped(t).len() <= t.len(),
        capped(t) == t.take(capped(t).len() as int),
        matching(capped(t)) <= MAX_HEADING_TEXT_CHARS,
        capped(t).len() <= MAX_HEADING_TEXT_RAW_CHARS,
        capped(t).len() < t.len() ==> full(capped(t), t[capped(t).len() as int]),
    decreases t.len(),
{
    if t.len() > 0 {
        let u = t.drop_last();
        lemma_capped(u);
        let n = capped(u).len() as int;
        assert(u.take(n) =~= t.take(n));
        if n == u.len() {
            assert(u.take(n) =~= u);
        }
        assert(t.take(t.len() as int) =~= t);
    }
}

/// A text with room for all of it is left whole.
proof fn lemma_capped_fits(t: Seq<char>)
    requires
        matching(t) <= MAX_HEADING_TEXT_CHARS,
        t.len() <= MAX_HEADING_TEXT_RAW_CHARS,
    ensures
        capped(t) == t,
    decreases t.len(),
{
    if t.len() > 0 {
        lemma_capped_fits(t.drop_last());
    }
}

/// What stored heading text is like: tidy words with single spaces between
/// them, no control character in it, no longer than the two limits, and a start
/// of the heading's collapsed text.
pub proof fn clean_is_tidy(s: Seq<char>)
    ensures
        tidy(clean(s)),
        forall|i: int| 0 <= i < clean(s).len() ==> !control(#[trigger] clean(s)[i]),
        matching(clean(s)) <= MAX_HEADING_TEXT_CHARS,
        clean(s).len() <= MAX_HEADING_TEXT_RAW_CHARS,
        clean(s).is_prefix_of(collapsed(s)),
        capped(collapsed(s)) == collapsed(s) ==> clean(s) == collapsed(s),
{
    let t = collapsed(s);
    let p = capped(t);
    lemma_collapsed_tidy(s);
    lemma_capped(t);
    lemma_cut_tidy(t, p.len() as int);
    let c = clean(s);
    if p.len() > 0 {
        lemma_tail_push(p.drop_last(), p.last());
        assert(p.drop_last().push(p.last()) =~= p);
    }
    assert(c =~= t.take(c.len() as int));
    lemma_matching_take(t, c.len() as int, p.len() as int);
    if p == t && t.len() > 0 {
        lemma_tidy_tail(t);
    }
    if p == t && t.len() == 0 {
        assert(c =~= t);
    }
    assert forall|i: int| 0 <= i < c.len() implies !control(#[trigger] c[i]) by {
        if control(c[i]) {
            assert(separator(c[i]));
        }
    }
}

/// Cleaning a text that was cleaned before does not change it.
pub proof fn clean_is_idempotent(s: Seq<char>)
    ensures
        clean(clean(s)) == clean(s),
{
    let c = clean(s);
    clean_is_tidy(s);
    lemma_collapsed_tidy(c);
    lemma_capped_fits(c);
    clean_is_tidy(c);
}

/// What `unicase` folds a character to that is not ASCII: the first character of
/// its full case folding, and those that follow.
pub uninterp spec fn folded_char(c: char) -> (char, Seq<char>);

/// An ASCII letter in lower case, and any other character as it is.
pub open spec fn ascii_lower(c: char) -> char {
    if 'A' <= c <= 'Z' {
        (c as u32 + 32) as char
    } else {
        c
    }
}

/// The full case folding of one character.
pub open spec fn fold_char(c: char) -> Seq<char> {
    if c <= '\u{7f}' {
        seq![ascii_lower(c)]
    } else {
        seq![folded_char(c).0] + folded_char(c).1
    }
}

/// The full case folding of a text: that of its characters, one by one.
pub open spec fn fold_text(s: Seq<char>) -> Seq<char>
    decreases s.len(),
{
    if s.len() == 0 {
        seq![]
    } else {
        fold_text(s.drop_last()) + fold_char(s.last())
    }
}

/// What folding a character does to it: it makes no whitespace or control
/// character of another one, and no character that matching does not look at of
/// one that it does. What it makes is folded already.
pub open spec fn folds_in_kind(c: char) -> bool {
    forall|j: int|
        0 <= j < fold_char(c).len() ==> {
            let f = #[trigger] fold_char(c)[j];
            &&& separator(f) ==> separator(c)
            &&& ignored(f) ==> ignored(c)
            &&& fold_char(f) == seq![f]
        }
}

/// `unicase::UniCase::to_folded_case`: the text is folded character by
/// character, an ASCII letter to its lower case and another ASCII character to
/// itself. Every character is folded to at least one, and in kind, as the table
/// of the crate shows. The first clause says with the name of what the table holds
/// what [`fold_text`] is.
#[verifier::external_body]
fn fold_case(s: &str) -> (r: String)
    ensures
        r@ == s@.map_values(
            |c: char|
                if c <= '\u{7f}' {
                    seq![ascii_lower(c)]
                } else {
                    seq![folded_char(c).0] + folded_char(c).1
                },
        ).flatten(),
        r@ == fold_text(s@) && forall|i: int|
            0 <= i < s@.len() ==> folds_in_kind(#[trigger] s@[i]),
{
    unicase::UniCase::new(s).to_folded_case()
}

proof fn lemma_fold_len(s: Seq<char>)
    ensures
        fold_text(s).len() >= s.len(),
    decreases s.len(),
{
    if s.len() > 0 {
        lemma_fold_len(s.drop_last());
    }
}

pub proof fn lemma_fold_concat(a: Seq<char>, b: Seq<char>)
    ensures
        fold_text(a + b) == fold_text(a) + fold_text(b),
    decreases b.len(),
{
    if b.len() == 0 {
        assert(a + b =~= a);
        assert(fold_text(a) + fold_text(b) =~= fold_text(a));
    } else {
        lemma_fold_concat(a, b.drop_last());
        assert((a + b).drop_last() =~= a + b.drop_last());
        assert(fold_text(a + b) =~= fold_text(a) + fold_text(b));
    }
}

/// The characters of `s` that matching looks at.
pub open spec fn visible(s: Seq<char>) -> Seq<char>
    decreases s.len(),
{
    if s.len() == 0 {
        seq![]
    } else if ignored(s.last()) {
        visible(s.drop_last())
    } else {
        visible(s.drop_last()).push(s.last())
    }
}

proof fn lemma_visible_concat(a: Seq<char>, b: Seq<char>)
    ensures
        visible(a + b) == visible(a) + visible(b),
    decreases b.len(),
{
    if b.len() == 0 {
        assert(a + b =~= a);
        assert(visible(a) + visible(b) =~= visible(a));
    } else {
        lemma_visible_concat(a, b.drop_last());
        assert((a + b).drop_last() =~= a + b.drop_last());
        assert(visible(a + b) =~= visible(a) + visible(b));
    }
}

/// `folded` if it has at most [`MAX_HEADING_TEXT_CHARS`] characters, else that
/// many from its start, without whitespace at the end.
pub open spec fn folded_cut(folded: Seq<char>) -> Seq<char> {
    if folded.len() > MAX_HEADING_TEXT_CHARS {
        trim_end(folded.take(MAX_HEADING_TEXT_CHARS as int))
    } else {
        folded
    }
}

/// What a heading that reads `s` is compared by.
pub open spec fn normalized(s: Seq<char>) -> Seq<char> {
    folded_cut(fold_text(visible(clean(s))))
}

/// Whether so many characters of `s` do not count as matching that its stored
/// text ends before it has [`MAX_HEADING_TEXT_CHARS`] of those that do.
pub open spec fn cut_by_format_chars(s: Seq<char>) -> bool {
    &&& capped(collapsed(s)).len() < collapsed(s).len()
    &&& matching(capped(collapsed(s))) < MAX_HEADING_TEXT_CHARS
}

/// A text without layout characters shows one character for each that counts as
/// matching, and it shows no space at its end if its last word counts.
proof fn lemma_visible(p: Seq<char>)
    requires
        spaced(p),
        forall|i: int| 0 <= i < p.len() ==> !layout_only(#[trigger] p[i]),
    ensures
        visible(p).len() == matching(p),
        tail_matches(p) ==> visible(p).len() > 0 && !whitespace(visible(p).last()),
        !tail_matches(p) && tail_start(p) == 0 ==> matching(p) == 0,
        !tail_matches(p) && tail_start(p) > 0 ==> visible(p) == visible(
            p.take(tail_start(p) - 1),
        ).push(' '),
        forall|i: int| 0 <= i < visible(p).len() ==> p.contains(#[trigger] visible(p)[i]),
    decreases p.len(),
{
    if p.len() > 0 {
        let q = p.drop_last();
        let c = p.last();
        assert forall|i: int| 0 <= i < q.len() && separator(#[trigger] q[i]) implies q[i] == ' ' by {
            assert(p[i] == q[i]);
        }
        assert forall|i: int| 0 <= i < q.len() implies !layout_only(#[trigger] q[i]) by {
            assert(p[i] == q[i]);
        }
        lemma_visible(q);
        lemma_tail_push(q, c);
        assert(q.push(c) =~= p);
        assert(p[p.len() - 1] == c);
        assert forall|i: int| 0 <= i < visible(p).len() implies p.contains(
            #[trigger] visible(p)[i],
        ) by {
            if i < visible(q).len() {
                assert(q.contains(visible(q)[i]));
                let j = choose|j: int| 0 <= j < q.len() && q[j] == visible(q)[i];
                assert(p[j] == visible(p)[i]);
            }
        }
        if !tail_matches(p) && tail_start(p) > 0 {
            assert(p.take(tail_start(p) - 1) =~= q.take(tail_start(p) - 1));
            if c == ' ' {
                assert(q.take(tail_start(p) - 1) =~= q);
                assert(!ignored(c));
            }
        }
    }
}

proof fn lemma_trim_end_keeps(s: Seq<char>)
    ensures
        trim_end(s).is_prefix_of(s),
        s.len() > 0 && !whitespace(s.last()) ==> trim_end(s) == s,
        trim_end(s) == s && s.len() > 0 ==> !whitespace(s.last()),
    decreases s.len(),
{
    if s.len() > 0 && whitespace(s.last()) {
        lemma_trim_end_keeps(s.drop_last());
    }
}

/// The cut of a folded text depends only on its start.
proof fn lemma_folded_cut_prefix(a: Seq<char>, rest: Seq<char>)
    requires
        a.len() >= MAX_HEADING_TEXT_CHARS,
        trim_end(a) == a,
    ensures
        folded_cut(a + rest) == folded_cut(a),
{
    let n = MAX_HEADING_TEXT_CHARS as int;
    assert((a + rest).take(n) =~= a.take(n));
    if a.len() == n {
        assert(a.take(n) =~= a);
        if rest.len() == 0 {
            assert(a + rest =~= a);
        }
    }
}

/// Where folding does not make the text end in whitespace, it makes no difference
/// that it was cut before: the stored text is compared as the whole heading would
/// be.
proof fn lemma_normalized_whole(s: Seq<char>)
    requires
        !cut_by_format_chars(s),
        trim_end(fold_text(visible(clean(s)))) == fold_text(visible(clean(s))),
    ensures
        normalized(s) == folded_cut(fold_text(visible(collapsed(s)))),
{
    let t = collapsed(s);
    let p = capped(t);
    let c = clean(s);
    lemma_collapsed_tidy(s);
    lemma_capped(t);
    clean_is_tidy(s);
    lemma_no_layout(t);
    lemma_fold_len(visible(c));
    if p.len() < t.len() {
        assert forall|i: int| 0 <= i < p.len() && separator(#[trigger] p[i]) implies p[i] == ' ' by {
            assert(t[i] == p[i]);
        }
        assert forall|i: int| 0 <= i < p.len() implies !layout_only(#[trigger] p[i]) by {
            assert(t[i] == p[i]);
        }
        lemma_visible(p);
        let rest = t.skip(p.len() as int);
        assert(p + rest =~= t);
        lemma_visible_concat(p, rest);
        lemma_fold_concat(visible(p), visible(rest));
        if tail_matches(p) {
            assert(c == p);
            lemma_trim_end_keeps(visible(p));
            lemma_folded_cut_prefix(fold_text(visible(p)), fold_text(visible(rest)));
        } else {
            // The cut fell behind a space, which `clean` drops.
            lemma_tail_words(p);
            lemma_no_layout(c);
            lemma_visible(c);
            lemma_cut_tidy(t, p.len() as int);
            lemma_trim_end_keeps(visible(c));
            let a = fold_text(visible(c));
            let whole = fold_text(visible(t));
            assert(visible(p) =~= visible(c) + seq![' ']);
            lemma_fold_concat(visible(c), seq![' ']);
            assert(fold_text(seq![' ']) =~= seq![' ']) by {
                reveal_with_fuel(fold_text, 2);
                assert(seq![' '].drop_last() =~= seq![]);
            }
            assert(visible(c).len() == MAX_HEADING_TEXT_CHARS - 1);
            let more = seq![' '] + fold_text(visible(rest));
            assert(whole =~= a + more);
            if a.len() >= MAX_HEADING_TEXT_CHARS {
                lemma_folded_cut_prefix(a, more);
            } else {
                let start = whole.take(MAX_HEADING_TEXT_CHARS as int);
                assert(start =~= a.push(' '));
                assert(start.drop_last() =~= a);
                assert(trim_end(start) == a);
                assert(whole.len() >= MAX_HEADING_TEXT_CHARS);
                lemma_tidy_tail(t);
                lemma_visible(t);
                assert(visible(rest).len() > 0) by {
                    if visible(rest).len() == 0 {
                        assert(visible(t) =~= visible(p));
                        assert(visible(t).last() == ' ');
                    }
                }
                lemma_fold_len(visible(rest));
            }
        }
    } else {
        assert(p =~= t);
    }
}

/// A text that matching looks at all of, with single spaces between its words. It
/// may end with one.
spec fn neat(t: Seq<char>) -> bool
    decreases t.len(),
{
    t.len() == 0 || {
        &&& neat(t.drop_last())
        &&& !ignored(t.last())
        &&& if t.last() == ' ' {
            t.len() > 1 && t[t.len() - 2] != ' '
        } else {
            !separator(t.last())
        }
    }
}

proof fn lemma_neat_take(t: Seq<char>, n: int)
    requires
        neat(t),
        0 <= n <= t.len(),
    ensures
        neat(t.take(n)),
    decreases t.len(),
{
    if n < t.len() {
        assert(t.drop_last().take(n) =~= t.take(n));
        lemma_neat_take(t.drop_last(), n);
    } else {
        assert(t.take(n) =~= t);
    }
}

/// More of a word leaves a text neat.
proof fn lemma_neat_append(t: Seq<char>, more: Seq<char>)
    requires
        neat(t),
        forall|i: int| 0 <= i < more.len() ==> !separator(#[trigger] more[i]) && !ignored(more[i]),
    ensures
        neat(t + more),
    decreases more.len(),
{
    if more.len() == 0 {
        assert(t + more =~= t);
    } else {
        let fewer = more.drop_last();
        assert forall|i: int| 0 <= i < fewer.len() implies !separator(#[trigger] fewer[i])
            && !ignored(fewer[i]) by {
            assert(more[i] == fewer[i]);
        }
        lemma_neat_append(t, fewer);
        assert((t + more).drop_last() =~= t + fewer);
        assert(!separator(more[more.len() - 1]) && !ignored(more[more.len() - 1]));
        assert(separator(' '));
    }
}

/// The words of a neat text can all be read.
proof fn lemma_neat_words(t: Seq<char>)
    requires
        neat(t),
    ensures
        spaced(t),
        visible(t) == t,
        forall|i: int| 0 <= i < t.len() ==> !ignored(#[trigger] t[i]),
        t.len() > 0 ==> t[0] != ' ',
        words(t).len() >= 1,
        forall|k: int, i: int|
            0 <= k < words(t).len() && 0 <= i < words(t)[k].len() ==> !separator(
                #[trigger] words(t)[k][i],
            ) && !ignored(words(t)[k][i]),
        forall|k: int| 0 <= k < words(t).len() - 1 ==> (#[trigger] words(t)[k]).len() > 0,
        words(t).last().len() == 0 <==> t.len() == 0 || t.last() == ' ',
    decreases t.len(),
{
    assert(separator(' '));
    if t.len() > 0 {
        let u = t.drop_last();
        let c = t.last();
        lemma_neat_words(u);
        let ws = words(u);
        let xs = words(t);
        assert forall|i: int| 0 <= i < t.len() && separator(#[trigger] t[i]) implies t[i] == ' ' by {
            if i < u.len() {
                assert(u[i] == t[i]);
            }
        }
        assert forall|i: int| 0 <= i < t.len() implies !ignored(#[trigger] t[i]) by {
            if i < u.len() {
                assert(u[i] == t[i]);
            }
        }
        assert(u.push(c) =~= t);
        assert forall|k: int, i: int| 0 <= k < xs.len() && 0 <= i < xs[k].len() implies !separator(
            #[trigger] xs[k][i],
        ) && !ignored(xs[k][i]) by {
            if k < ws.len() && i < ws[k].len() {
                assert(ws[k][i] == xs[k][i]);
            }
        }
        assert forall|k: int| 0 <= k < xs.len() - 1 implies (#[trigger] xs[k]).len() > 0 by {
            assert(xs[k] == ws[k]);
        }
    }
}

/// A neat text that does not end with a space is tidy, and has nothing to trim.
proof fn lemma_neat_tidy(t: Seq<char>)
    requires
        neat(t),
        t.len() > 0 ==> t.last() != ' ',
    ensures
        tidy(t),
        plain(t),
        trim(t) == t,
{
    lemma_neat_words(t);
    let ws = words(t);
    if t.len() > 0 {
        assert forall|k: int| 0 <= k < ws.len() implies tidy_word(#[trigger] ws[k]) by {
            let w = ws[k];
            assert(w.len() > 0);
            assert forall|i: int| 0 <= i < w.len() implies !separator(#[trigger] w[i])
                && !ignored(w[i]) by {
                assert(ws[k][i] == w[i]);
            }
            assert(!ignored(w[0]));
        }
        assert(!whitespace(t[0])) by {
            if whitespace(t[0]) {
                assert(separator(t[0]));
            }
        }
        assert(!whitespace(t[t.len() - 1])) by {
            if whitespace(t[t.len() - 1]) {
                assert(separator(t[t.len() - 1]));
            }
        }
    }
    assert forall|i: int| 0 <= i < t.len() implies !control(#[trigger] t[i]) by {
        if control(t[i]) {
            assert(separator(t[i]));
        }
    }
}

/// What shows of a tidy text is neat.
proof fn lemma_neat_visible(t: Seq<char>, n: int)
    requires
        tidy(t),
        0 <= n <= t.len(),
    ensures
        neat(visible(t.take(n))),
    decreases n,
{
    if n > 0 {
        let q = t.take(n - 1);
        let p = t.take(n);
        let c = t[n - 1];
        lemma_neat_visible(t, n - 1);
        assert(p.drop_last() =~= q);
        assert(p =~= q.push(c));
        let v = visible(q);
        assert(visible(p).drop_last() =~= v || ignored(c));
        if c == ' ' {
            // The word before a space is complete, so something of it shows.
            assert forall|i: int| 0 <= i < q.len() && separator(#[trigger] q[i]) implies q[i]
                == ' ' by {
                assert(t[i] == q[i]);
            }
            lemma_no_layout(t);
            assert forall|i: int| 0 <= i < q.len() implies !layout_only(#[trigger] q[i]) by {
                assert(t[i] == q[i]);
            }
            lemma_words_take(t, n);
            lemma_words(q);
            assert(separator(' '));
            let k = words(q).len() - 1;
            assert(words(p)[k] == words(q)[k]);
            assert(tidy_word(words(t)[k]));
            lemma_tail_words(q);
            let w = words(q).last();
            let i = choose|i: int| 0 <= i < w.len() && !ignored(#[trigger] w[i]);
            assert(q[tail_start(q) + i] == w[i]);
            assert(tail_matches(q));
            lemma_visible(q);
            assert(whitespace(' '));
        }
    }
}

/// Folding leaves a neat text neat, and there is nothing to fold in the result.
proof fn lemma_neat_fold(v: Seq<char>)
    requires
        neat(v),
        forall|i: int| 0 <= i < v.len() ==> folds_in_kind(#[trigger] v[i]),
    ensures
        neat(fold_text(v)),
        fold_text(v).len() == 0 <==> v.len() == 0,
        v.len() > 0 ==> (fold_text(v).last() == ' ' <==> v.last() == ' '),
        forall|j: int|
            0 <= j < fold_text(v).len() ==> fold_char(#[trigger] fold_text(v)[j])
                == seq![fold_text(v)[j]],
    decreases v.len(),
{
    if v.len() > 0 {
        let u = v.drop_last();
        let c = v.last();
        assert forall|i: int| 0 <= i < u.len() implies folds_in_kind(#[trigger] u[i]) by {
            assert(v[i] == u[i]);
        }
        lemma_neat_fold(u);
        assert(folds_in_kind(v[v.len() - 1]));
        let a = fold_text(u);
        let b = fold_char(c);
        let f = fold_text(v);
        assert(separator(' '));
        if c == ' ' {
            assert(b =~= seq![' ']);
            assert(f =~= a.push(' '));
            assert(f.drop_last() =~= a);
            assert(u.last() == v[v.len() - 2]);
        } else {
            assert forall|i: int| 0 <= i < b.len() implies !separator(#[trigger] b[i]) && !ignored(
                b[i],
            ) by {
                assert(fold_char(c)[i] == b[i]);
            }
            lemma_neat_append(a, b);
            assert(!separator(b[b.len() - 1]));
        }
        assert forall|j: int| 0 <= j < f.len() implies fold_char(#[trigger] f[j]) == seq![f[j]] by {
            if j < a.len() {
                assert(f[j] == a[j]);
            } else {
                assert(f[j] == fold_char(c)[j - a.len()]);
            }
        }
    }
}

proof fn lemma_fold_fixed(t: Seq<char>)
    requires
        forall|j: int| 0 <= j < t.len() ==> fold_char(#[trigger] t[j]) == seq![t[j]],
    ensures
        fold_text(t) == t,
    decreases t.len(),
{
    if t.len() > 0 {
        let u = t.drop_last();
        assert forall|j: int| 0 <= j < u.len() implies fold_char(#[trigger] u[j]) == seq![u[j]] by {
            assert(t[j] == u[j]);
        }
        lemma_fold_fixed(u);
        assert(fold_char(t[t.len() - 1]) == seq![t[t.len() - 1]]);
        assert(fold_text(t) =~= t);
    }
}

/// A tidy text that matching looks at all of, that is short enough and folded, is
/// compared by itself.
proof fn lemma_normalized_fixed(n: Seq<char>)
    requires
        neat(n),
        n.len() > 0 ==> n.last() != ' ',
        n.len() <= MAX_HEADING_TEXT_CHARS,
        forall|j: int| 0 <= j < n.len() ==> fold_char(#[trigger] n[j]) == seq![n[j]],
    ensures
        normalized(n) == n,
{
    lemma_neat_tidy(n);
    lemma_neat_words(n);
    lemma_collapsed_tidy(n);
    assert forall|i: int| 0 <= i < n.len() implies !layout_only(#[trigger] n[i]) by {
        assert(!ignored(n[i]));
    }
    lemma_visible(n);
    lemma_capped_fits(n);
    clean_is_tidy(n);
    lemma_fold_fixed(n);
}

/// What a heading is compared by is tidy, shows all of itself, and is compared by
/// itself, where folding keeps the kinds of characters.
proof fn lemma_normalized(s: Seq<char>)
    requires
        forall|i: int|
            0 <= i < visible(clean(s)).len() ==> folds_in_kind(#[trigger] visible(clean(s))[i]),
    ensures
        trim_end(fold_text(visible(clean(s)))) == fold_text(visible(clean(s))),
        normalized(s).len() <= MAX_HEADING_TEXT_CHARS,
        plain(normalized(s)),
        forall|i: int| 0 <= i < normalized(s).len() ==> !ignored(#[trigger] normalized(s)[i]),
        trim(normalized(s)) == normalized(s),
        normalized(normalized(s)) == normalized(s),
{
    let c = clean(s);
    let v = visible(c);
    let f = fold_text(v);
    let n = normalized(s);
    clean_is_tidy(s);
    lemma_neat_visible(c, c.len() as int);
    assert(c.take(c.len() as int) =~= c);
    lemma_no_layout(c);
    lemma_visible(c);
    if c.len() > 0 {
        lemma_tidy_tail(c);
    }
    lemma_neat_fold(v);
    assert(whitespace(' '));
    lemma_neat_tidy(f);
    lemma_trim_end_keeps(f);
    if f.len() > 0 {
        assert(separator(f[f.len() - 1]) ==> f[f.len() - 1] == ' ') by {
            lemma_neat_words(f);
        }
    }
    let start = f.take(MAX_HEADING_TEXT_CHARS as int);
    if f.len() > MAX_HEADING_TEXT_CHARS {
        lemma_trim_end_ends(start);
        lemma_trim_end_keeps(start);
        assert(n =~= f.take(n.len() as int));
        lemma_neat_take(f, n.len() as int);
    }
    assert forall|j: int| 0 <= j < n.len() implies fold_char(#[trigger] n[j]) == seq![n[j]] by {
        assert(n[j] == f[j]);
    }
    lemma_neat_tidy(n);
    lemma_neat_words(n);
    lemma_normalized_fixed(n);
}

proof fn lemma_trim_end_ends(s: Seq<char>)
    ensures
        trim_end(s).len() > 0 ==> !whitespace(trim_end(s).last()),
    decreases s.len(),
{
    if s.len() > 0 && whitespace(s.last()) {
        lemma_trim_end_ends(s.drop_last());
    }
}

/// A text without control characters.
pub open spec fn plain(s: Seq<char>) -> bool {
    forall|i: int| 0 <= i < s.len() ==> !control(#[trigger] s[i])
}

/// The start of a folded heading text that takes part in matching.
pub fn cut_folded(folded: &str) -> (r: String)
    ensures
        r@ == folded_cut(folded@),
{
    let chars = chars_of(folded);
    if chars.len() <= MAX_HEADING_TEXT_CHARS {
        return text_of(&chars, 0, chars.len());
    }
    let ghost whole = chars@.take(MAX_HEADING_TEXT_CHARS as int);
    let mut n: usize = MAX_HEADING_TEXT_CHARS;
    proof {
        assert(whole.take(n as int) =~= whole);
    }
    while n > 0 && is_whitespace(chars[n - 1])
        invariant
            n <= MAX_HEADING_TEXT_CHARS < chars@.len(),
            whole == chars@.take(MAX_HEADING_TEXT_CHARS as int),
            trim_end(whole.take(n as int)) == trim_end(whole),
        decreases n,
    {
        proof {
            assert(whole.take(n as int).drop_last() =~= whole.take(n - 1));
        }
        n = n - 1;
    }
    proof {
        assert(whole.take(n as int) =~= chars@.subrange(0, n as int));
    }
    text_of(&chars, 0, n)
}

/// What a heading is compared by, so that case, whitespace and invisible
/// characters make no difference:
///
/// 1. the text that is stored for it (see [`clean_heading_text`]),
/// 2. without the characters that matching does not look at,
/// 3. with full Unicode case folding,
/// 4. cut again to [`MAX_HEADING_TEXT_CHARS`] characters.
///
/// Unless format characters alone filled the stored text, the result is what
/// steps 2 to 4 make of the whole heading. So two spellings of a heading that
/// agree once they are folded are compared alike, even if one is longer than
/// the other and was cut at another place. In the result there is never a control
/// character, a character that matching does not look at, or whitespace at the
/// start or the end, and it is compared by itself.
pub fn normalize_heading_text(s: &str) -> (r: String)
    ensures
        r@ == normalized(s@),
        !cut_by_format_chars(s@) ==> r@ == folded_cut(fold_text(visible(collapsed(s@)))),
        r@.len() <= MAX_HEADING_TEXT_CHARS,
        plain(r@),
        forall|i: int| 0 <= i < r@.len() ==> !ignored(#[trigger] r@[i]),
        trim(r@) == r@,
        normalized(r@) == r@,
{
    let cleaned = clean_heading_text(s);
    let chars = chars_of(cleaned.as_str());
    let mut shown = String::new();
    let mut i: usize = 0;
    proof {
        assert(chars@.take(0) =~= seq![]);
    }
    while i < chars.len()
        invariant
            i <= chars@.len(),
            shown@ == visible(chars@.take(i as int)),
        decreases chars@.len() - i,
    {
        proof {
            assert(chars@.take(i + 1).drop_last() =~= chars@.take(i as int));
        }
        if !is_ignored_in_matching(chars[i]) {
            shown.push(chars[i]);
        }
        i = i + 1;
    }
    let folded = fold_case(shown.as_str());
    proof {
        assert(chars@.take(chars@.len() as int) =~= chars@);
        lemma_normalized(s@);
        if !cut_by_format_chars(s@) {
            lemma_normalized_whole(s@);
        }
    }
    cut_folded(folded.as_str())
}

/// What the segments of a heading path are compared by, one by one.
pub open spec fn normalized_all(segments: Seq<&str>) -> Seq<Seq<char>> {
    segments.map_values(|s: &str| normalized(s@))
}

/// The key of a run of heading segments: what each segment is compared by, with
/// [`HEADING_KEY_SEPARATOR`] between neighbours. It can be read in one way only: the
/// segments of the key are what the segments of the run are compared by, one by one.
pub fn heading_prefix_key(segments: &[&str]) -> (r: String)
    ensures
        r@ == join(normalized_all(segments@), seq![HEADING_KEY_SEPARATOR]),
        forall|k: int| 0 <= k < segments@.len() ==> plain(#[trigger] normalized_all(segments@)[k]),
        r@ == join(
            Seq::new(segments@.len(), |k: int| normalized(segments@[k]@)),
            seq!['\u{1f}'],
        ),
        segments@.len() == 1 ==> r@ == normalized(segments@[0]@),
        forall|parts: Seq<Seq<char>>|
            segments@.len() > 0 && parts.len() > 0 && (forall|k: int|
                0 <= k < parts.len() ==> plain(#[trigger] parts[k])) ==> (#[trigger] join(
                parts,
                seq![HEADING_KEY_SEPARATOR],
            ) == r@ <==> parts.len() == segments@.len() && forall|k: int|
                0 <= k < parts.len() ==> #[trigger] parts[k] == normalized(segments@[k]@)),
{
    let mut r = String::new();
    let mut i: usize = 0;
    let ghost all = normalized_all(segments@);
    while i < segments.len()
        invariant
            i <= segments@.len(),
            all == normalized_all(segments@),
            r@ == join(all.take(i as int), seq![HEADING_KEY_SEPARATOR]),
            forall|k: int| 0 <= k < i ==> plain(#[trigger] all[k]),
        decreases segments@.len() - i,
    {
        if i > 0 {
            r.push(HEADING_KEY_SEPARATOR);
        }
        let next = normalize_heading_text(segments[i]);
        r.append(next.as_str());
        proof {
            assert(all.take(i + 1).drop_last() =~= all.take(i as int));
            assert(all[i as int] == next@);
            if i > 0 {
                assert(r@ =~= join(all.take(i as int), seq![HEADING_KEY_SEPARATOR])
                    + seq![HEADING_KEY_SEPARATOR] + next@);
            } else {
                assert(r@ =~= next@);
            }
        }
        i = i + 1;
    }
    proof {
        assert(all.take(segments@.len() as int) =~= all);
        assert(all =~= Seq::new(segments@.len(), |k: int| normalized(segments@[k]@)));
        assert forall|parts: Seq<Seq<char>>|
            segments@.len() > 0 && parts.len() > 0 && (forall|k: int|
                0 <= k < parts.len() ==> plain(#[trigger] parts[k])) implies (#[trigger] join(
            parts,
            seq![HEADING_KEY_SEPARATOR],
        ) == r@ <==> parts.len() == segments@.len() && forall|k: int|
            0 <= k < parts.len() ==> #[trigger] parts[k] == normalized(segments@[k]@)) by {
            keys_are_unambiguous(parts, all);
            if parts.len() == segments@.len() && forall|k: int|
                0 <= k < parts.len() ==> #[trigger] parts[k] == normalized(segments@[k]@) {
                assert(parts =~= all);
            }
        }
    }
    r
}

proof fn lemma_join_split(a: Seq<Seq<char>>, b: Seq<Seq<char>>)
    requires
        a.len() > 0,
        b.len() > 0,
        forall|k: int| 0 <= k < a.len() ==> plain(#[trigger] a[k]),
        forall|k: int| 0 <= k < b.len() ==> plain(#[trigger] b[k]),
        join(a, seq![HEADING_KEY_SEPARATOR]) == join(b, seq![HEADING_KEY_SEPARATOR]),
    ensures
        a == b,
    decreases a.len(),
{
    let sep = seq![HEADING_KEY_SEPARATOR];
    let x = join(a, sep);
    let m = a.last().len() as int;
    let n = b.last().len() as int;
    assert(plain(a[a.len() - 1]));
    assert(plain(b[b.len() - 1]));
    assert(control(HEADING_KEY_SEPARATOR));
    // The last segments are what follows the last separator.
    if a.len() > 1 {
        assert(x[x.len() - m - 1] == HEADING_KEY_SEPARATOR);
        if n > m || b.len() == 1 {
            assert(x[x.len() - m - 1] == b.last()[n - m - 1]);
        }
    }
    if b.len() > 1 {
        assert(x[x.len() - n - 1] == HEADING_KEY_SEPARATOR);
        if m > n || a.len() == 1 {
            assert(x[x.len() - n - 1] == a.last()[m - n - 1]);
        }
    }
    if a.len() == 1 {
        assert(b.len() == 1);
        assert(a =~= b);
    } else {
        assert(b.len() > 1);
        assert(m == n);
        let c = a.drop_last();
        let d = b.drop_last();
        assert(join(c, sep) =~= x.take(x.len() - m - 1));
        assert(join(d, sep) =~= x.take(x.len() - m - 1));
        assert(a.last() =~= x.skip(x.len() - m));
        assert(b.last() =~= x.skip(x.len() - m));
        assert forall|k: int| 0 <= k < c.len() implies plain(#[trigger] c[k]) by {
            assert(plain(a[k]));
        }
        assert forall|k: int| 0 <= k < d.len() implies plain(#[trigger] d[k]) by {
            assert(plain(b[k]));
        }
        lemma_join_split(c, d);
        assert(c.push(a.last()) =~= a);
        assert(d.push(b.last()) =~= b);
    }
}

/// Keys tell paths apart: if no segment holds a control character, two runs of
/// segments have the same key exactly if they have the same segments.
pub proof fn keys_are_unambiguous(a: Seq<Seq<char>>, b: Seq<Seq<char>>)
    requires
        a.len() > 0,
        b.len() > 0,
        forall|k: int| 0 <= k < a.len() ==> plain(#[trigger] a[k]),
        forall|k: int| 0 <= k < b.len() ==> plain(#[trigger] b[k]),
    ensures
        join(a, seq![HEADING_KEY_SEPARATOR]) == join(b, seq![HEADING_KEY_SEPARATOR]) <==> a == b,
{
    if join(a, seq![HEADING_KEY_SEPARATOR]) == join(b, seq![HEADING_KEY_SEPARATOR]) {
        lemma_join_split(a, b);
    }
}

/// A heading is compared the same way whether its text or the text that is
/// stored for it is given.
pub proof fn stored_text_matches_its_heading(s: Seq<char>)
    ensures
        normalized(clean(s)) == normalized(s),
{
    clean_is_idempotent(s);
}

} // verus!
