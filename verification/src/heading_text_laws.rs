//! What holds of the text of every heading.
use vstd::prelude::*;

use crate::heading_text::{
    capped, clean, clean_is_tidy, collapsed, fold_char, fold_text, folded_char, ignored,
    keys_are_unambiguous, layout_only, legible, lemma_capped, lemma_fold_concat, lemma_join_tidy,
    lemma_stored_words, lemma_words, matching, normalized, normalized_all, plain, rendering_format,
    separator, stored, stored_words, tail_matches, tail_start, visible, words,
};
use crate::text::{control, join, lemma_join_concat, trim_end, whitespace};

verus! {

/// The words of a text go from one separator to the next.
pub proof fn words_end_at_separators(a: Seq<char>, c: char, b: Seq<char>)
    requires
        whitespace(c) || control(c),
    ensures
        words(a.push(c) + b) == words(a) + words(b),
    decreases b.len(),
{
    let s = a.push(c) + b;
    lemma_words(a);
    if b.len() == 0 {
        assert(s =~= a.push(c));
        assert(s.drop_last() =~= a);
        assert(words(s) =~= words(a) + words(b));
    } else {
        let t = b.drop_last();
        words_end_at_separators(a, c, t);
        lemma_words(t);
        assert(s.drop_last() =~= a.push(c) + t);
        assert(words(s) =~= words(a) + words(b));
    }
}

/// A text without separators is one word.
pub proof fn a_word_is_one_word(w: Seq<char>)
    requires
        forall|i: int| 0 <= i < w.len() ==> !whitespace(#[trigger] w[i]) && !control(w[i]),
    ensures
        words(w) == seq![w],
    decreases w.len(),
{
    if w.len() == 0 {
        assert(words(w)[0] =~= w);
    } else {
        let v = w.drop_last();
        assert forall|i: int| 0 <= i < v.len() implies !whitespace(#[trigger] v[i]) && !control(
            v[i],
        ) by {
            assert(w[i] == v[i]);
        }
        a_word_is_one_word(v);
        assert(!separator(w[w.len() - 1]));
        assert(v.push(w.last()) =~= w);
    }
    assert(words(w) =~= seq![w]);
}

proof fn lemma_stored_filter(w: Seq<char>)
    ensures
        stored(w) == w.filter(|c: char| !layout_only(c)),
    decreases w.len(),
{
    reveal(Seq::filter);
    if w.len() > 0 {
        lemma_stored_filter(w.drop_last());
    }
}

proof fn lemma_stored_words_concat(a: Seq<Seq<char>>, b: Seq<Seq<char>>)
    ensures
        stored_words(a + b) == stored_words(a) + stored_words(b),
    decreases b.len(),
{
    if b.len() == 0 {
        assert(a + b =~= a);
        assert(stored_words(a) + stored_words(b) =~= stored_words(a));
    } else {
        lemma_stored_words_concat(a, b.drop_last());
        assert((a + b).drop_last() =~= a + b.drop_last());
        assert(stored_words(a + b) =~= stored_words(a) + stored_words(b));
    }
}

/// Each part of a heading between separators is collapsed on its own, and what is
/// left of two parts has one space between them.
pub proof fn collapsing_ends_at_separators(a: Seq<char>, c: char, b: Seq<char>)
    requires
        whitespace(c) || control(c),
    ensures
        collapsed(a.push(c) + b) == (if collapsed(a).len() == 0 {
            collapsed(b)
        } else if collapsed(b).len() == 0 {
            collapsed(a)
        } else {
            collapsed(a) + seq![' '] + collapsed(b)
        }),
{
    words_end_at_separators(a, c, b);
    lemma_stored_words_concat(words(a), words(b));
    let x = stored_words(words(a));
    let y = stored_words(words(b));
    lemma_words(a);
    lemma_words(b);
    lemma_stored_words(words(a));
    lemma_stored_words(words(b));
    lemma_join_tidy(x);
    lemma_join_tidy(y);
    if x.len() == 0 {
        assert(x + y =~= y);
    } else if y.len() == 0 {
        assert(x + y =~= x);
    } else {
        lemma_join_concat(x, y, seq![' ']);
    }
}

/// A word with something to read in it keeps all its characters but those that
/// never change how it is rendered. A word with nothing to read is left out.
pub proof fn a_word_keeps_its_characters(w: Seq<char>)
    requires
        forall|i: int| 0 <= i < w.len() ==> !whitespace(#[trigger] w[i]) && !control(w[i]),
    ensures
        (exists|i: int| 0 <= i < w.len() && !ignored(#[trigger] w[i])) ==> collapsed(w) == w.filter(
            |c: char| !layout_only(c),
        ),
        (forall|i: int| 0 <= i < w.len() ==> ignored(#[trigger] w[i])) ==> collapsed(w).len() == 0,
{
    a_word_is_one_word(w);
    lemma_stored_filter(w);
    let ws = seq![w];
    assert(ws.drop_last() =~= seq![]);
    reveal_with_fuel(stored_words, 2);
    if legible(w) {
        assert(stored_words(ws) =~= seq![stored(w)]);
    } else {
        assert(stored_words(ws) =~= seq![]);
    }
}

proof fn lemma_matching_filter(s: Seq<char>)
    ensures
        matching(s) == s.filter(|c: char| !rendering_format(c)).len(),
    decreases s.len(),
{
    reveal(Seq::filter);
    if s.len() > 0 {
        lemma_matching_filter(s.drop_last());
    }
}

/// Whether `kept` is what is kept of `t` if it is cut behind `n` characters, and
/// the last word before the cut starts at `m`: all of it, or, if no character of
/// that word takes part in matching, what stands before the word.
pub open spec fn kept_up_to(t: Seq<char>, kept: Seq<char>, n: int, m: int) -> bool {
    &&& 0 <= m <= n <= t.len()
    &&& m > 0 ==> t[m - 1] == ' '
    &&& forall|i: int| m <= i < n ==> #[trigger] t[i] != ' '
    &&& kept == (if exists|i: int| m <= i < n && !rendering_format(#[trigger] t[i]) {
        t.take(n)
    } else if m == 0 {
        seq![]
    } else {
        t.take(m - 1)
    })
}

proof fn lemma_tail_start(p: Seq<char>)
    ensures
        0 <= tail_start(p) <= p.len(),
        tail_start(p) > 0 ==> p[tail_start(p) - 1] == ' ',
        forall|i: int| tail_start(p) <= i < p.len() ==> #[trigger] p[i] != ' ',
    decreases p.len(),
{
    if p.len() > 0 && p.last() != ' ' {
        let q = p.drop_last();
        lemma_tail_start(q);
        assert forall|i: int| tail_start(p) <= i < p.len() implies #[trigger] p[i] != ' ' by {
            if i < q.len() {
                assert(q[i] == p[i]);
            }
        }
    }
}

/// The stored text of a heading is its collapsed text, cut where the next
/// character would be one too many: the 201st that takes part in matching, or the
/// 401st of all.
pub proof fn stored_text_is_cut_where_it_is_full(s: Seq<char>)
    ensures
        exists|n: int, m: int| #[trigger]
            kept_up_to(collapsed(s), clean(s), n, m) && collapsed(s).take(n).filter(
                |c: char| !rendering_format(c),
            ).len() <= 200 && n <= 400 && (n < collapsed(s).len() ==> collapsed(s).take(
                n + 1,
            ).filter(|c: char| !rendering_format(c)).len() > 200 || n + 1 > 400),
        collapsed(s).filter(|c: char| !rendering_format(c)).len() <= 200 && collapsed(s).len()
            <= 400 ==> clean(s) == collapsed(s),
{
    let t = collapsed(s);
    let p = capped(t);
    let n = p.len() as int;
    let m = tail_start(p);
    lemma_capped(t);
    lemma_tail_start(p);
    lemma_matching_filter(p);
    lemma_matching_filter(t);
    assert(p == t.take(n));
    assert forall|i: int| m <= i < n implies #[trigger] t[i] != ' ' by {
        assert(p[i] == t[i]);
    }
    if tail_matches(p) {
        let i = choose|i: int| m <= i < p.len() && !rendering_format(#[trigger] p[i]);
        assert(t[i] == p[i]);
    } else if exists|i: int| m <= i < n && !rendering_format(#[trigger] t[i]) {
        let i = choose|i: int| m <= i < n && !rendering_format(#[trigger] t[i]);
        assert(p[i] == t[i]);
    }
    if m > 0 {
        assert(p.take(m - 1) =~= t.take(m - 1));
    }
    assert(kept_up_to(t, clean(s), n, m));
    if n < t.len() {
        let q = t.take(n + 1);
        assert(q.drop_last() =~= p);
        lemma_matching_filter(q);
    } else {
        assert(t.take(n) =~= t);
    }
    if matching(t) <= 200 && t.len() <= 400 {
        if n < t.len() {
            lemma_matching_prefix(t, n + 1);
        }
        clean_is_tidy(s);
    }
}

proof fn lemma_matching_prefix(t: Seq<char>, n: int)
    requires
        0 <= n <= t.len(),
    ensures
        matching(t.take(n)) <= matching(t),
    decreases t.len(),
{
    if n < t.len() {
        assert(t.drop_last().take(n) =~= t.take(n));
        lemma_matching_prefix(t.drop_last(), n);
    } else {
        assert(t.take(n) =~= t);
    }
}

proof fn lemma_visible_filter(s: Seq<char>)
    ensures
        visible(s) == s.filter(|c: char| !ignored(c)),
    decreases s.len(),
{
    reveal(Seq::filter);
    if s.len() > 0 {
        lemma_visible_filter(s.drop_last());
    }
}

/// A heading is compared by all characters of its stored text that matching looks
/// at, folded. Of more than 200 folded characters the first 200 count, without
/// whitespace at their end.
pub proof fn a_heading_is_compared_by_what_shows(s: Seq<char>)
    ensures
        ({
            let folded = fold_text(clean(s).filter(|c: char| !ignored(c)));
            normalized(s) == (if folded.len() <= 200 {
                folded
            } else {
                trim_end(folded.take(200))
            })
        }),
{
    lemma_visible_filter(clean(s));
}

/// Texts are folded character by character, an ASCII letter to its lower case and
/// another ASCII character to itself.
pub proof fn folding_goes_character_by_character(a: Seq<char>, b: Seq<char>, c: char)
    ensures
        fold_text(Seq::empty()).len() == 0,
        fold_text(a + b) == fold_text(a) + fold_text(b),
        'A' <= c <= 'Z' ==> fold_text(seq![c]) == seq![(c as u32 + 32) as char],
        c <= '\u{7f}' && !('A' <= c <= 'Z') ==> fold_text(seq![c]) == seq![c],
        c > '\u{7f}' ==> fold_text(seq![c]) == seq![folded_char(c).0] + folded_char(c).1,
{
    lemma_fold_concat(a, b);
    assert(seq![c].drop_last() =~= seq![]);
    reveal_with_fuel(fold_text, 2);
    assert(fold_text(seq![c]) =~= fold_char(c));
}

/// The characters that matching does not look at, by their numbers. Those of the
/// first kind are not stored either.
pub proof fn invisible_characters_are_these(c: char)
    ensures
        layout_only(c) <==> {
            let n = c as u32;
            n == 0xad || n == 0x200b || 0x2060 <= n <= 0x2064 || n == 0xfeff
        },
        rendering_format(c) <==> {
            let n = c as u32;
            n == 0x61c || n == 0x180e || 0x200c <= n <= 0x200f || 0x202a <= n <= 0x202e || 0x2066
                <= n <= 0x206f || 0xfe00 <= n <= 0xfe0f
        },
        ignored(c) <==> layout_only(c) || rendering_format(c),
{
}

/// The key of a run of segments: what each is compared by, with the separator
/// between neighbours.
pub open spec fn key_of(segments: Seq<Seq<char>>) -> Seq<char> {
    join(Seq::new(segments.len(), |k: int| normalized(segments[k])), seq!['\u{1f}'])
}

/// Two runs of segments have the same key exactly if they are equally long and the
/// segments at each place are compared by the same text, as long as no such text
/// holds a control character. The key of one segment is the text it is compared by.
pub proof fn keys_tell_segments_apart(a: Seq<Seq<char>>, b: Seq<Seq<char>>)
    ensures
        a.len() == 1 ==> key_of(a) == normalized(a[0]),
        a.len() > 0 && b.len() > 0 && (forall|k: int|
            0 <= k < a.len() ==> plain(normalized(#[trigger] a[k]))) && (forall|k: int|
            0 <= k < b.len() ==> plain(normalized(#[trigger] b[k]))) ==> (key_of(a) == key_of(b)
            <==> a.len() == b.len() && forall|k: int|
            0 <= k < a.len() ==> normalized(#[trigger] a[k]) == normalized(b[k])),
{
    let x = Seq::new(a.len(), |k: int| normalized(a[k]));
    let y = Seq::new(b.len(), |k: int| normalized(b[k]));
    if a.len() > 0 && b.len() > 0 && (forall|k: int|
        0 <= k < a.len() ==> plain(normalized(#[trigger] a[k]))) && (forall|k: int|
        0 <= k < b.len() ==> plain(normalized(#[trigger] b[k]))) {
        assert forall|k: int| 0 <= k < x.len() implies plain(#[trigger] x[k]) by {
            assert(plain(normalized(a[k])));
        }
        assert forall|k: int| 0 <= k < y.len() implies plain(#[trigger] y[k]) by {
            assert(plain(normalized(b[k])));
        }
        keys_are_unambiguous(x, y);
        if key_of(a) == key_of(b) {
            assert forall|k: int| 0 <= k < a.len() implies normalized(#[trigger] a[k])
                == normalized(b[k]) by {
                assert(x[k] == y[k]);
            }
        }
        if a.len() == b.len() && forall|k: int|
            0 <= k < a.len() ==> normalized(#[trigger] a[k]) == normalized(b[k]) {
            assert(x =~= y);
        }
    }
}

/// The segments of a key are what the segments of the run are compared by.
pub proof fn keys_are_made_of_all_segments(segments: Seq<&str>)
    ensures
        join(normalized_all(segments), seq!['\u{1f}']) == key_of(
            Seq::new(segments.len(), |k: int| segments[k]@),
        ),
{
    let texts = Seq::new(segments.len(), |k: int| segments[k]@);
    assert(normalized_all(segments) =~= Seq::new(texts.len(), |k: int| normalized(texts[k])));
}

} // verus!
