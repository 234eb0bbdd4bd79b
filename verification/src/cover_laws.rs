//! The pieces that the body of a document is cut into: its sections, and the parts
//! of those that are too large.
use vstd::prelude::*;
use vstd::utf8::*;

use crate::chunk::{
    fragment_texts, oversized, pieces_of, preamble_of, section_of, sections_of, size, split_limit,
    FragmentView, SectionView,
};
use crate::chunk_laws::{consistent, lemma_sections};
use crate::config::ChunkingConfig;
use crate::heading::{sections_tile, well_placed, HeadingView};
use crate::lines::{
    lemma_line_at, lemma_line_starts, lemma_range, line_at, line_count, line_starts, range_end,
    range_start, NEWLINE,
};
use crate::text::{
    byte_len, byte_slice, dense, join, lemma_ascii_boundaries, lemma_byte_len_bounds,
    lemma_byte_slice, lemma_dense_concat, lemma_dense_join, lemma_dense_line_feed, lemma_dense_trim,
    lemma_encode_injective, lemma_encode_one, lemma_slices, lemma_valid_part, trim, trim_end,
    trim_start, whitespace,
};

verus! {

/// A piece of the body that is not cut any further.
pub struct PieceView {
    /// Its first byte.
    pub start: int,
    /// The byte behind its last.
    pub end: int,
    /// The heading of the section that it is from; `None` for the preamble.
    pub heading: Option<int>,
    /// Whether it is the first piece of that section, and so starts with the
    /// heading.
    pub first: bool,
    /// Whether it is a part of a section that was split. Else it is all of it.
    pub split: bool,
}

/// What stands in bytes `start..end` of `body`.
pub open spec fn stands_at(body: Seq<char>, start: int, end: int) -> Seq<char> {
    decode_utf8(encode_utf8(body).subrange(start, end))
}

/// The size of `text` in bytes without whitespace around it.
pub open spec fn weight(text: Seq<char>) -> nat {
    encode_utf8(trim(text)).len()
}

/// Whether there is nothing but whitespace in bytes `start..end` of `body`.
pub open spec fn blank(body: Seq<char>, start: int, end: int) -> bool {
    0 <= start <= end <= encode_utf8(body).len() && trim(stands_at(body, start, end)).len() == 0
}

/// The characters that are kept free for a heading path: a quarter of the maximum
/// size, at most 200, and none if no path is put before chunks.
pub open spec fn kept_free(config: ChunkingConfig) -> int {
    if !config.prepend_heading_path {
        0
    } else if config.max_chunk_size / 4 < 200 {
        (config.max_chunk_size / 4) as int
    } else {
        200
    }
}

/// The size up to which a section is one piece.
pub open spec fn largest(config: ChunkingConfig) -> int {
    config.max_chunk_size - kept_free(config)
}

/// The size up to which sections are put together.
pub open spec fn wanted(config: ChunkingConfig) -> int {
    let target = match config.target_chunk_size {
        Some(size) => size,
        None => config.max_chunk_size,
    };
    if target > kept_free(config) {
        target - kept_free(config)
    } else {
        0
    }
}

/// Whether bytes `start..end` are all lines of the section of `heading`: from the
/// line of the heading to the line before the next one. The preamble goes up to
/// the line before the first heading.
pub open spec fn is_section(
    body: Seq<char>,
    headings: Seq<HeadingView>,
    heading: Option<int>,
    start: int,
    end: int,
) -> bool {
    let bytes = encode_utf8(body);
    let first = match heading {
        Some(h) => headings[h].line as int,
        None => 1,
    };
    let last = match heading {
        Some(h) => headings[h].section_end,
        None => if headings.len() > 0 {
            headings[0].line - 1
        } else {
            line_count(bytes) as int
        },
    };
    &&& heading matches Some(h) ==> 0 <= h < headings.len()
    &&& 0 <= start <= end <= bytes.len()
    &&& start > 0 ==> bytes[start - 1] == 10
    &&& end < bytes.len() ==> bytes[end] == 10
    &&& line_at(bytes, start) == first
    &&& line_at(bytes, end) == last
}

/// Whether `piece` is a section that is small enough, or a part of one that is
/// not: with something in it, no whitespace at its end and no more characters than
/// a section may have bytes.
#[verifier::opaque]
pub open spec fn is_piece(
    body: Seq<char>,
    config: ChunkingConfig,
    headings: Seq<HeadingView>,
    piece: PieceView,
) -> bool {
    let text = stands_at(body, piece.start, piece.end);
    if piece.split {
        &&& 0 < text.len() <= largest(config)
        &&& !whitespace(text.last())
        &&& exists|start: int, end: int| #[trigger]
            is_section(body, headings, piece.heading, start, end) && start <= piece.start
                < piece.end <= end && weight(stands_at(body, start, end)) > largest(config)
    } else {
        &&& is_section(body, headings, piece.heading, piece.start, piece.end)
        &&& weight(text) <= largest(config)
    }
}

/// Whether `pieces` are the pieces of `body`: they follow each other, with nothing
/// but whitespace before, between and behind them.
pub open spec fn cover_the_body(
    body: Seq<char>,
    config: ChunkingConfig,
    headings: Seq<HeadingView>,
    pieces: Seq<PieceView>,
) -> bool {
    let end = encode_utf8(body).len() as int;
    &&& covers_up_to(body, config, headings, pieces, end)
    &&& forall|i: int|
        0 <= i < pieces.len() ==> ((#[trigger] pieces[i]).first <==> forall|j: int|
            0 <= j < i ==> (#[trigger] pieces[j]).heading != pieces[i].heading)
}

/// Whether `pieces` are the pieces of `body` up to byte `end`.
pub open spec fn covers_up_to(
    body: Seq<char>,
    config: ChunkingConfig,
    headings: Seq<HeadingView>,
    pieces: Seq<PieceView>,
    end: int,
) -> bool {
    &&& forall|i: int|
        0 <= i < pieces.len() ==> is_piece(body, config, headings, #[trigger] pieces[i])
    &&& forall|i: int, j: int|
        0 <= i < j < pieces.len() ==> (#[trigger] pieces[i]).end <= (#[trigger] pieces[j]).start
    &&& forall|i: int, j: int|
        0 <= i && j == i + 1 && j < pieces.len() ==> blank(
            body,
            (#[trigger] pieces[i]).end,
            (#[trigger] pieces[j]).start,
        )
    &&& pieces.len() == 0 ==> blank(body, 0, end)
    &&& pieces.len() > 0 ==> blank(body, 0, pieces[0].start) && blank(body, pieces.last().end, end)
}

/// The piece that fragment `k` of `section` is.
pub open spec fn cut_piece(section: SectionView, k: int, fragment: FragmentView) -> PieceView {
    PieceView {
        start: section.byte_start + fragment.0,
        end: section.byte_start + fragment.0 + byte_len(fragment.1),
        heading: section.heading,
        first: k == 0,
        split: true,
    }
}

/// The pieces of one section.
pub open spec fn section_pieces(
    config: ChunkingConfig,
    section: SectionView,
    fragments: Seq<FragmentView>,
) -> Seq<PieceView> {
    if oversized(config, section) {
        Seq::new(fragments.len(), |k: int| cut_piece(section, k, fragments[k]))
    } else {
        seq![
            PieceView {
                start: section.byte_start,
                end: section.byte_start + byte_len(section.text),
                heading: section.heading,
                first: true,
                split: false,
            },
        ]
    }
}

/// The pieces of the first `n` sections.
pub open spec fn pieces_upto(
    config: ChunkingConfig,
    sections: Seq<SectionView>,
    fragments: Seq<Seq<FragmentView>>,
    n: int,
) -> Seq<PieceView>
    decreases n,
{
    if n <= 0 {
        seq![]
    } else {
        pieces_upto(config, sections, fragments, n - 1) + section_pieces(
            config,
            sections[n - 1],
            fragments[n - 1],
        )
    }
}

proof fn lemma_blank_dense(body: Seq<char>, start: int, end: int)
    requires
        0 <= start <= end <= encode_utf8(body).len(),
    ensures
        blank(body, start, end) <==> dense(stands_at(body, start, end)).len() == 0,
{
    let text = stands_at(body, start, end);
    lemma_dense_trim(text);
    let t = trim(text);
    if t.len() > 0 {
        lemma_trimmed_end(text);
    }
}

/// A trimmed text does not end with whitespace.
proof fn lemma_trimmed_end(text: Seq<char>)
    ensures
        trim(text).len() > 0 ==> !whitespace(trim(text).last()),
{
    lemma_end_trimmed(trim_start(text));
}

proof fn lemma_end_trimmed(text: Seq<char>)
    ensures
        trim_end(text).len() > 0 ==> !whitespace(trim_end(text).last()),
    decreases text.len(),
{
    if text.len() > 0 && whitespace(text.last()) {
        lemma_end_trimmed(text.drop_last());
    }
}

proof fn lemma_blank_concat(body: Seq<char>, a: int, b: int, c: int)
    requires
        blank(body, a, b),
        blank(body, b, c),
        is_char_boundary(encode_utf8(body), a),
        is_char_boundary(encode_utf8(body), b),
        is_char_boundary(encode_utf8(body), c),
    ensures
        blank(body, a, c),
{
    lemma_blank_dense(body, a, b);
    lemma_blank_dense(body, b, c);
    lemma_blank_dense(body, a, c);
    lemma_slices(body, a, b, c);
    lemma_dense_concat(stands_at(body, a, b), stands_at(body, b, c));
}

/// What is between two places in a blank part is blank.
pub proof fn lemma_blank_part(body: Seq<char>, a: int, b: int, c: int, d: int)
    requires
        blank(body, a, d),
        a <= b <= c <= d,
        is_char_boundary(encode_utf8(body), a),
        is_char_boundary(encode_utf8(body), b),
        is_char_boundary(encode_utf8(body), c),
        is_char_boundary(encode_utf8(body), d),
    ensures
        blank(body, b, c),
{
    lemma_blank_dense(body, a, d);
    lemma_blank_dense(body, b, c);
    lemma_slices(body, a, b, d);
    lemma_slices(body, b, c, d);
    lemma_dense_concat(stands_at(body, a, b), stands_at(body, b, d));
    lemma_dense_concat(stands_at(body, b, c), stands_at(body, c, d));
}

/// How many characters stand between the first `k` fragments, and before them, but
/// for whitespace.
spec fn left_out(body: Seq<char>, section: SectionView, fragments: Seq<FragmentView>, k: int) -> nat
    decreases k,
{
    if k <= 0 {
        0
    } else {
        left_out(body, section, fragments, k - 1) + dense(
            stands_at(
                body,
                fragment_end(section, fragments, k - 1),
                section.byte_start + fragments[k - 1].0,
            ),
        ).len()
    }
}

/// Where the first `k` fragments end.
pub open spec fn fragment_end(section: SectionView, fragments: Seq<FragmentView>, k: int) -> int {
    if k <= 0 {
        section.byte_start
    } else {
        section.byte_start + fragments[k - 1].0 + byte_len(fragments[k - 1].1)
    }
}

proof fn lemma_left_out_grows(
    body: Seq<char>,
    section: SectionView,
    fragments: Seq<FragmentView>,
    j: int,
    k: int,
)
    requires
        j <= k,
    ensures
        left_out(body, section, fragments, j) <= left_out(body, section, fragments, k),
    decreases k - j,
{
    if j < k {
        lemma_left_out_grows(body, section, fragments, j, k - 1);
    }
}

/// What a section and its fragments are in the body.
pub open spec fn cut_from_body(
    body: Seq<char>,
    limit: nat,
    section: SectionView,
    fragments: Seq<FragmentView>,
) -> bool {
    let bytes = encode_utf8(body);
    let end = section.byte_start + byte_len(section.text);
    &&& 0 <= section.byte_start <= end <= bytes.len()
    &&& is_char_boundary(bytes, section.byte_start)
    &&& is_char_boundary(bytes, end)
    &&& section.text == stands_at(body, section.byte_start, end)
    &&& pieces_of(section.text, limit, fragments)
}

/// A fragment stands in the body where its section says.
pub proof fn lemma_fragment(
    body: Seq<char>,
    limit: nat,
    section: SectionView,
    fragments: Seq<FragmentView>,
    k: int,
)
    requires
        cut_from_body(body, limit, section, fragments),
        0 <= k < fragments.len(),
    ensures
        ({
            let start = section.byte_start + fragments[k].0;
            let end = fragment_end(section, fragments, k + 1);
            &&& section.byte_start <= start < end <= section.byte_start + byte_len(section.text)
            &&& is_char_boundary(encode_utf8(body), start)
            &&& is_char_boundary(encode_utf8(body), end)
            &&& stands_at(body, start, end) == fragments[k].1
            &&& fragment_end(section, fragments, k) <= start
            &&& is_char_boundary(encode_utf8(body), fragment_end(section, fragments, k))
        }),
    decreases k,
{
    let bytes = encode_utf8(body);
    let f = fragments[k];
    let start = section.byte_start + f.0;
    let end = start + byte_len(f.1);
    let last = section.byte_start + byte_len(section.text);
    encode_utf8_valid_utf8(body);
    lemma_byte_slice(body, section.byte_start, last);
    lemma_byte_len_bounds(f.1);
    assert(encode_utf8(f.1) == encode_utf8(section.text).subrange(f.0 as int, f.0 + byte_len(f.1)));
    assert(bytes.subrange(start, end) =~= encode_utf8(section.text).subrange(
        f.0 as int,
        f.0 + byte_len(f.1),
    ));
    encode_utf8_valid_utf8(f.1);
    lemma_valid_part(bytes, start, end);
    encode_utf8_decode_utf8(f.1);
    if k > 0 {
        lemma_fragment(body, limit, section, fragments, k - 1);
        assert(fragments[k - 1].0 + byte_len(fragments[k - 1].1) <= fragments[k].0);
    }
}

proof fn lemma_left_out(
    body: Seq<char>,
    limit: nat,
    section: SectionView,
    fragments: Seq<FragmentView>,
    k: int,
)
    requires
        cut_from_body(body, limit, section, fragments),
        0 <= k <= fragments.len(),
    ensures
        dense(
            stands_at(body, section.byte_start, fragment_end(section, fragments, k)),
        ).len() == dense(join(fragment_texts(fragments.take(k)), seq![])).len() + left_out(
            body,
            section,
            fragments,
            k,
        ),
    decreases k,
{
    let bytes = encode_utf8(body);
    let s = section.byte_start;
    if k == 0 {
        assert(fragment_texts(fragments.take(0)) =~= seq![]);
        assert(bytes.subrange(s, s) =~= encode_utf8(seq![]));
        encode_utf8_decode_utf8(seq![]);
    } else {
        lemma_left_out(body, limit, section, fragments, k - 1);
        lemma_fragment(body, limit, section, fragments, k - 1);
        let a = fragment_end(section, fragments, k - 1);
        let b = s + fragments[k - 1].0;
        let c = fragment_end(section, fragments, k);
        lemma_slices(body, s, b, c);
        lemma_slices(body, s, a, b);
        lemma_dense_concat(stands_at(body, s, b), stands_at(body, b, c));
        lemma_dense_concat(stands_at(body, s, a), stands_at(body, a, b));
        let fewer = fragment_texts(fragments.take(k - 1));
        assert(fragment_texts(fragments.take(k)) =~= fewer.push(fragments[k - 1].1));
        lemma_dense_join(fewer, fragments[k - 1].1, seq![]);
    }
}

/// Between the fragments of a section there is nothing but whitespace.
pub proof fn lemma_gaps(
    body: Seq<char>,
    limit: nat,
    section: SectionView,
    fragments: Seq<FragmentView>,
    k: int,
)
    requires
        cut_from_body(body, limit, section, fragments),
        0 <= k <= fragments.len(),
    ensures
        k < fragments.len() ==> blank(
            body,
            fragment_end(section, fragments, k),
            section.byte_start + fragments[k].0,
        ),
        k == fragments.len() ==> blank(
            body,
            fragment_end(section, fragments, k),
            section.byte_start + byte_len(section.text),
        ),
        weight(section.text) > 0 ==> fragments.len() > 0,
{
    let s = section.byte_start;
    let end = s + byte_len(section.text);
    let n = fragments.len() as int;
    lemma_left_out(body, limit, section, fragments, n);
    assert(fragments.take(n) =~= fragments);
    let last = fragment_end(section, fragments, n);
    if n > 0 {
        lemma_fragment(body, limit, section, fragments, n - 1);
    }
    lemma_slices(body, s, last, end);
    lemma_dense_concat(stands_at(body, s, last), stands_at(body, last, end));
    assert(left_out(body, section, fragments, n) == 0);
    lemma_blank_dense(body, last, end);
    if k < n {
        lemma_left_out_grows(body, section, fragments, k + 1, n);
        lemma_fragment(body, limit, section, fragments, k);
        lemma_blank_dense(body, fragment_end(section, fragments, k), s + fragments[k].0);
    }
    if n == 0 {
        assert(blank(body, s, end));
        lemma_blank_text(section.text);
    }
}

proof fn lemma_blank_text(text: Seq<char>)
    ensures
        trim(text).len() == 0 ==> weight(text) == 0,
        weight(text) == 0 ==> trim(text).len() == 0,
{
    lemma_byte_len_bounds(trim(text));
}

/// `pieces` cover `body` up to `end`, and are not cut within characters.
#[verifier::opaque]
pub open spec fn covered(
    body: Seq<char>,
    config: ChunkingConfig,
    headings: Seq<HeadingView>,
    pieces: Seq<PieceView>,
    end: int,
) -> bool {
    let bytes = encode_utf8(body);
    &&& covers_up_to(body, config, headings, pieces, end)
    &&& 0 <= end <= bytes.len()
    &&& is_char_boundary(bytes, end)
    &&& forall|i: int|
        0 <= i < pieces.len() ==> 0 <= (#[trigger] pieces[i]).start <= pieces[i].end <= end
            && is_char_boundary(bytes, pieces[i].start) && is_char_boundary(bytes, pieces[i].end)
}

proof fn lemma_blank_empty(body: Seq<char>, at: int)
    requires
        0 <= at <= encode_utf8(body).len(),
    ensures
        blank(body, at, at),
{
    assert(encode_utf8(body).subrange(at, at) =~= encode_utf8(seq![]));
    encode_utf8_decode_utf8(seq![]);
}

/// Whitespace behind the pieces is covered too.
proof fn lemma_extend(
    body: Seq<char>,
    config: ChunkingConfig,
    headings: Seq<HeadingView>,
    pieces: Seq<PieceView>,
    end: int,
    more: int,
)
    requires
        covered(body, config, headings, pieces, end),
        blank(body, end, more),
        is_char_boundary(encode_utf8(body), more),
    ensures
        covered(body, config, headings, pieces, more),
{
    reveal(covered);
    encode_utf8_valid_utf8(body);
    is_char_boundary_start_end_of_seq(encode_utf8(body));
    if pieces.len() == 0 {
        lemma_blank_concat(body, 0, end, more);
    } else {
        assert(pieces[pieces.len() - 1].end <= end);
        lemma_blank_concat(body, pieces.last().end, end, more);
    }
}

/// One more piece is covered.
proof fn lemma_push_piece(
    body: Seq<char>,
    config: ChunkingConfig,
    headings: Seq<HeadingView>,
    pieces: Seq<PieceView>,
    end: int,
    piece: PieceView,
)
    requires
        covered(body, config, headings, pieces, end),
        is_piece(body, config, headings, piece),
        piece.start == end,
        end <= piece.end <= encode_utf8(body).len(),
        is_char_boundary(encode_utf8(body), piece.end),
    ensures
        covered(body, config, headings, pieces.push(piece), piece.end),
{
    reveal(covered);
    let all = pieces.push(piece);
    lemma_blank_empty(body, piece.end);
    assert forall|i: int, j: int| 0 <= i < j < all.len() implies (#[trigger] all[i]).end <= (
    #[trigger] all[j]).start by {
        if j == pieces.len() {
            assert(pieces[i].end <= end);
        }
    }
    assert forall|i: int, j: int| 0 <= i && j == i + 1 && j < all.len() implies blank(
        body,
        (#[trigger] all[i]).end,
        (#[trigger] all[j]).start,
    ) by {
        if j == pieces.len() {
            assert(all[i] == pieces.last());
        } else {
            assert(blank(body, pieces[i].end, pieces[j].start));
        }
    }
    assert forall|i: int| 0 <= i < all.len() implies 0 <= (#[trigger] all[i]).start <= all[i].end
        <= piece.end && is_char_boundary(encode_utf8(body), all[i].start) && is_char_boundary(
        encode_utf8(body),
        all[i].end,
    ) by {
        if i < pieces.len() {
            assert(pieces[i].end <= end);
        }
    }
}

/// A section stands in the body from the start of its first line to the end of its
/// last.
pub proof fn lemma_section_at(body: Seq<char>, headings: Seq<HeadingView>, i: int)
    requires
        well_placed(headings, line_count(encode_utf8(body))),
        headings.len() <= usize::MAX,
        0 <= i < sections_of(body, headings).len(),
    ensures
        ({
            let section = sections_of(body, headings)[i];
            let bytes = encode_utf8(body);
            let end = section.byte_start + byte_len(section.text);
            &&& is_section(body, headings, section.heading, section.byte_start, end)
            &&& is_char_boundary(bytes, section.byte_start)
            &&& is_char_boundary(bytes, end)
            &&& section.text == stands_at(body, section.byte_start, end)
            &&& line_at(bytes, section.byte_start) == section.line_start
            &&& line_at(bytes, end) == section.line_end
            &&& section.byte_start == range_start(bytes, section.line_start)
            &&& end == range_end(bytes, section.line_start, section.line_end)
        }),
{
    let bytes = encode_utf8(body);
    let count = line_count(bytes);
    let section = sections_of(body, headings)[i];
    let first = section.line_start;
    let last = section.line_end;
    lemma_sections(body, headings, i);
    let start = range_start(bytes, first);
    let end = range_end(bytes, first, last);
    encode_utf8_valid_utf8(body);
    lemma_range(bytes, first, last);
    lemma_byte_slice(body, start, end);
    lemma_line_starts(bytes);
    lemma_line_at(bytes, start);
    lemma_line_at(bytes, end);
    assert(line_starts(bytes)[first - 1] <= start);
    if first < count {
        assert(line_starts(bytes)[first + 1 - 1] > start);
    }
    assert(line_starts(bytes)[last - 1] <= end) by {
        if last < count {
            assert(line_starts(bytes)[last - 1] < line_starts(bytes)[last]);
        }
    }
    if last < count {
        assert(line_starts(bytes)[last + 1 - 1] > end);
    }
    let skip = preamble_of(body, headings).len() as int;
    if i >= skip {
        assert(section == section_of(body, headings, i - skip));
    }
}

/// Every heading has a section: its lines, with the text that stands on them. The
/// preamble comes before them, unless there is nothing in it but whitespace.
pub proof fn every_heading_has_its_section(body: Seq<char>, headings: Seq<HeadingView>, h: int)
    requires
        well_placed(headings, line_count(encode_utf8(body))),
        headings.len() <= usize::MAX,
        0 <= h < headings.len(),
    ensures
        ({
            let sections = sections_of(body, headings);
            let section = sections[h + sections.len() - headings.len()];
            let end = section.byte_start + encode_utf8(section.text).len();
            &&& sections.len() == headings.len() || sections.len() == headings.len() + 1
            &&& section.heading == Some(h)
            &&& section.line_start == headings[h].line
            &&& section.line_end == headings[h].section_end
            &&& is_section(body, headings, Some(h), section.byte_start, end)
            &&& section.text == stands_at(body, section.byte_start, end)
        }),
{
    let sections = sections_of(body, headings);
    let skip = preamble_of(body, headings).len() as int;
    assert(sections[skip + h] == section_of(body, headings, h));
    lemma_section_at(body, headings, skip + h);
}

/// What stands before the first heading is a section, unless it is blank. Without
/// headings that is all of the body.
pub proof fn a_preamble_is_a_section(body: Seq<char>, headings: Seq<HeadingView>)
    requires
        well_placed(headings, line_count(encode_utf8(body))),
        headings.len() <= usize::MAX,
    ensures
        ({
            let sections = sections_of(body, headings);
            let section = sections[0];
            let end = encode_utf8(section.text).len() as int;
            let last = if headings.len() > 0 {
                headings[0].line - 1
            } else {
                line_count(encode_utf8(body)) as int
            };
            &&& sections.len() == headings.len() ==> last == 0 || trim(
                stands_at(
                    body,
                    range_start(encode_utf8(body), 1),
                    range_end(encode_utf8(body), 1, last),
                ),
            ).len() == 0
            &&& sections.len() > headings.len() ==> {
                &&& sections.len() == headings.len() + 1
                &&& section.heading is None
                &&& section.line_start == 1
                &&& section.line_end == last
                &&& section.byte_start == 0
                &&& is_section(body, headings, None, 0, end)
                &&& section.text == stands_at(body, 0, end)
                &&& trim(section.text).len() > 0
            }
        }),
{
    let sections = sections_of(body, headings);
    let bytes = encode_utf8(body);
    sections_tile(headings, line_count(bytes));
    lemma_line_starts(bytes);
    if sections.len() > headings.len() {
        lemma_section_at(body, headings, 0);
        lemma_sections(body, headings, 0);
    }
}

/// The pieces of one more section are covered.
proof fn lemma_cover_section(
    body: Seq<char>,
    config: ChunkingConfig,
    headings: Seq<HeadingView>,
    fragments: Seq<Seq<FragmentView>>,
    pieces: Seq<PieceView>,
    i: int,
)
    requires
        consistent(body, config, headings, fragments),
        0 <= i < sections_of(body, headings).len(),
        covered(
            body,
            config,
            headings,
            pieces,
            sections_of(body, headings)[i].byte_start,
        ),
    ensures
        ({
            let section = sections_of(body, headings)[i];
            covered(
                body,
                config,
                headings,
                pieces + section_pieces(config, section, fragments[i]),
                section.byte_start + byte_len(section.text),
            )
        }),
{
    let section = sections_of(body, headings)[i];
    let more = section_pieces(config, section, fragments[i]);
    let limit = split_limit(config);
    lemma_section_at(body, headings, i);
    if oversized(config, section) {
        assert(pieces_of(section.text, limit, fragments[i]));
        let n = fragments[i].len() as int;
        lemma_cover_fragments(body, config, headings, section, fragments[i], pieces, n);
        assert(more.take(n) =~= more);
        lemma_gaps(body, limit, section, fragments[i], n);
        lemma_extend(
            body,
            config,
            headings,
            pieces + more,
            fragment_end(section, fragments[i], n),
            section.byte_start + byte_len(section.text),
        );
    } else {
        assert(pieces + more =~= pieces.push(more[0]));
        assert(is_piece(body, config, headings, more[0])) by {
            reveal(is_piece);
        }
        lemma_push_piece(body, config, headings, pieces, section.byte_start, more[0]);
    }
}

proof fn lemma_fragment_is_piece(
    body: Seq<char>,
    config: ChunkingConfig,
    headings: Seq<HeadingView>,
    section: SectionView,
    fragments: Seq<FragmentView>,
    k: int,
)
    requires
        oversized(config, section),
        cut_from_body(body, split_limit(config), section, fragments),
        is_section(
            body,
            headings,
            section.heading,
            section.byte_start,
            section.byte_start + byte_len(section.text),
        ),
        0 <= k < fragments.len(),
    ensures
        is_piece(body, config, headings, cut_piece(section, k, fragments[k])),
{
    lemma_fragment(body, split_limit(config), section, fragments, k);
    reveal(is_piece);
    assert(0 < fragments[k].1.len() <= split_limit(config));
    assert(!whitespace(fragments[k].1.last()));
}

proof fn lemma_cover_fragments(
    body: Seq<char>,
    config: ChunkingConfig,
    headings: Seq<HeadingView>,
    section: SectionView,
    fragments: Seq<FragmentView>,
    pieces: Seq<PieceView>,
    k: int,
)
    requires
        oversized(config, section),
        cut_from_body(body, split_limit(config), section, fragments),
        is_section(
            body,
            headings,
            section.heading,
            section.byte_start,
            section.byte_start + byte_len(section.text),
        ),
        covered(body, config, headings, pieces, section.byte_start),
        0 <= k <= fragments.len(),
    ensures
        covered(
            body,
            config,
            headings,
            pieces + section_pieces(config, section, fragments).take(k),
            fragment_end(section, fragments, k),
        ),
    decreases k,
{
    let more = section_pieces(config, section, fragments);
    let limit = split_limit(config);
    if k == 0 {
        assert(pieces + more.take(0) =~= pieces);
    } else {
        lemma_cover_fragments(body, config, headings, section, fragments, pieces, k - 1);
        lemma_fragment(body, limit, section, fragments, k - 1);
        lemma_gaps(body, limit, section, fragments, k - 1);
        let before = pieces + more.take(k - 1);
        let piece = more[k - 1];
        lemma_extend(
            body,
            config,
            headings,
            before,
            fragment_end(section, fragments, k - 1),
            piece.start,
        );
        lemma_fragment_is_piece(body, config, headings, section, fragments, k - 1);
        lemma_push_piece(body, config, headings, before, piece.start, piece);
        assert(before.push(piece) =~= pieces + more.take(k));
    }
}

/// Where heading `m` starts, or the body ends behind the last heading.
pub open spec fn place_of(body: Seq<char>, headings: Seq<HeadingView>, m: int) -> int {
    let bytes = encode_utf8(body);
    if m < headings.len() {
        range_start(bytes, headings[m].line as int)
    } else {
        bytes.len() as int
    }
}

/// The line feed between two sections is whitespace.
pub proof fn lemma_line_feed(body: Seq<char>, at: int)
    requires
        0 <= at < encode_utf8(body).len(),
        encode_utf8(body)[at] == NEWLINE,
    ensures
        blank(body, at, at + 1),
        is_char_boundary(encode_utf8(body), at),
        is_char_boundary(encode_utf8(body), at + 1),
{
    let bytes = encode_utf8(body);
    encode_utf8_valid_utf8(body);
    lemma_ascii_boundaries(bytes, at);
    lemma_byte_slice(body, at, at + 1);
    lemma_encode_one('\n');
    assert(10u32 & 0x7f == 10) by (bit_vector);
    assert(encode_scalar('\n' as u32) =~= bytes.subrange(at, at + 1));
    lemma_encode_injective(byte_slice(body, at, at + 1), seq!['\n']);
    lemma_dense_line_feed(seq![]);
    assert(Seq::<char>::empty().push('\n') =~= seq!['\n']);
    lemma_blank_dense(body, at, at + 1);
}

/// Behind a section there is the next one, or the end of the body, with a line feed
/// between them.
proof fn lemma_behind(body: Seq<char>, headings: Seq<HeadingView>, last: int, m: int)
    requires
        well_placed(headings, line_count(encode_utf8(body))),
        0 <= m <= headings.len(),
        1 <= last <= line_count(encode_utf8(body)),
        m < headings.len() ==> last + 1 == headings[m].line,
        m == headings.len() ==> last == line_count(encode_utf8(body)),
    ensures
        ({
            let end = range_end(encode_utf8(body), last, last);
            &&& blank(body, end, place_of(body, headings, m))
            &&& is_char_boundary(encode_utf8(body), place_of(body, headings, m))
        }),
{
    let bytes = encode_utf8(body);
    encode_utf8_valid_utf8(body);
    lemma_line_starts(bytes);
    is_char_boundary_start_end_of_seq(bytes);
    sections_tile(headings, line_count(bytes));
    if m < headings.len() {
        assert(line_starts(bytes)[last] > 0);
        lemma_line_feed(body, line_starts(bytes)[last] - 1);
    } else {
        lemma_blank_empty(body, bytes.len() as int);
    }
}

pub proof fn lemma_cover(
    body: Seq<char>,
    config: ChunkingConfig,
    headings: Seq<HeadingView>,
    fragments: Seq<Seq<FragmentView>>,
    m: int,
)
    requires
        consistent(body, config, headings, fragments),
        0 <= m <= headings.len(),
    ensures
        ({
            let sections = sections_of(body, headings);
            let skip = preamble_of(body, headings).len() as int;
            covered(
                body,
                config,
                headings,
                pieces_upto(config, sections, fragments, skip + m),
                place_of(body, headings, m),
            )
        }),
    decreases m,
{
    let bytes = encode_utf8(body);
    let count = line_count(bytes);
    let sections = sections_of(body, headings);
    let skip = preamble_of(body, headings).len() as int;
    let pieces = pieces_upto(config, sections, fragments, skip + m);
    encode_utf8_valid_utf8(body);
    is_char_boundary_start_end_of_seq(bytes);
    sections_tile(headings, count);
    lemma_line_starts(bytes);
    if m > 0 {
        lemma_cover(body, config, headings, fragments, m - 1);
        let i = skip + m - 1;
        let section = sections[i];
        assert(section == section_of(body, headings, m - 1));
        let before = pieces_upto(config, sections, fragments, i);
        lemma_section_at(body, headings, i);
        lemma_cover_section(body, config, headings, fragments, before, i);
        let last = section.line_end;
        if m < headings.len() {
            assert(headings[m - 1].section_end + 1 == headings[m].line);
        }
        lemma_behind(body, headings, last, m);
        assert(range_end(bytes, section.line_start, last) == range_end(bytes, last, last));
        lemma_extend(
            body,
            config,
            headings,
            pieces,
            section.byte_start + byte_len(section.text),
            place_of(body, headings, m),
        );
    } else {
        let last = if headings.len() > 0 {
            headings[0].line - 1
        } else {
            count as int
        };
        let none = Seq::<PieceView>::empty();
        lemma_blank_empty(body, 0);
        assert(covered(body, config, headings, none, 0)) by {
            reveal(covered);
        }
        assert(pieces_upto(config, sections, fragments, 0) =~= none);
        if last > 0 {
            lemma_range(bytes, 1, last);
            let end = range_end(bytes, 1, last);
            if skip > 0 {
                lemma_section_at(body, headings, 0);
                lemma_cover_section(body, config, headings, fragments, none, 0);
                assert(none + section_pieces(config, sections[0], fragments[0]) =~= pieces);
            } else {
                assert(blank(body, 0, end));
                lemma_extend(body, config, headings, none, 0, end);
            }
            lemma_behind(body, headings, last, 0);
            assert(end == range_end(bytes, last, last));
            lemma_extend(body, config, headings, pieces, end, place_of(body, headings, 0));
        }
    }
}

/// The first piece of a section is the one with no piece of it before.
pub proof fn lemma_firsts(
    body: Seq<char>,
    config: ChunkingConfig,
    headings: Seq<HeadingView>,
    fragments: Seq<Seq<FragmentView>>,
    n: int,
)
    requires
        consistent(body, config, headings, fragments),
        0 <= n <= sections_of(body, headings).len(),
    ensures
        ({
            let sections = sections_of(body, headings);
            let pieces = pieces_upto(config, sections, fragments, n);
            &&& forall|i: int|
                0 <= i < pieces.len() ==> ((#[trigger] pieces[i]).first <==> forall|j: int|
                    0 <= j < i ==> (#[trigger] pieces[j]).heading != pieces[i].heading)
            &&& forall|i: int, j: int|
                0 <= i < pieces.len() && n <= j < sections.len() ==> (#[trigger] pieces[i]).heading
                    != (#[trigger] sections[j]).heading
        }),
    decreases n,
{
    let sections = sections_of(body, headings);
    let pieces = pieces_upto(config, sections, fragments, n);
    if n > 0 {
        let section = sections[n - 1];
        lemma_firsts(body, config, headings, fragments, n - 1);
        let before = pieces_upto(config, sections, fragments, n - 1);
        let more = section_pieces(config, section, fragments[n - 1]);
        let m = before.len() as int;
        assert forall|i: int| 0 <= i < pieces.len() implies ((#[trigger] pieces[i]).first
            <==> forall|j: int| 0 <= j < i ==> (#[trigger] pieces[j]).heading
            != pieces[i].heading) by {
            if i < m {
                assert(pieces[i] == before[i]);
                assert forall|j: int| 0 <= j < i implies #[trigger] pieces[j] == before[j] by {}
                if forall|j: int| 0 <= j < i ==> (#[trigger] pieces[j]).heading
                    != pieces[i].heading {
                    assert forall|j: int| 0 <= j < i implies (#[trigger] before[j]).heading
                        != before[i].heading by {
                        assert(pieces[j] == before[j]);
                    }
                }
            } else {
                assert(pieces[i] == more[i - m]);
                if i > m {
                    assert(pieces[m] == more[0]);
                }
                assert forall|j: int| 0 <= j < m implies (#[trigger] pieces[j]).heading
                    != section.heading by {
                    assert(pieces[j] == before[j]);
                }
            }
        }
        assert forall|i: int, j: int| 0 <= i < pieces.len() && n <= j < sections.len() implies (
        #[trigger] pieces[i]).heading != (#[trigger] sections[j]).heading by {
            lemma_section_headings(body, headings, n - 1, j);
            if i < m {
                assert(pieces[i] == before[i]);
            } else {
                assert(pieces[i] == more[i - m]);
            }
        }
    }
}

/// Different sections have different headings.
proof fn lemma_section_headings(body: Seq<char>, headings: Seq<HeadingView>, i: int, j: int)
    requires
        0 <= i < j < sections_of(body, headings).len(),
    ensures
        sections_of(body, headings)[i].heading != sections_of(body, headings)[j].heading,
{
    let sections = sections_of(body, headings);
    let skip = preamble_of(body, headings).len() as int;
    assert(sections[j] == section_of(body, headings, j - skip));
    if i >= skip {
        assert(sections[i] == section_of(body, headings, i - skip));
    }
}

} // verus!
