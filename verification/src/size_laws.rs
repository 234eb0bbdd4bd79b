//! How large the chunks of a document are.
use vstd::prelude::*;
use vstd::utf8::*;

use crate::chunk::{
    appended, blank_line, chunk_text, chunks_of, flushed, fragment_piece, fragment_pieces, joins,
    merge_all, merge_limit, oversized, path_prefix, pieces_of, placed_piece, preamble_of,
    prefix_chars, raw_chunks, reserve, section_of, sections_of, size, split_all, split_done,
    split_limit, whole, FragmentView, RawView, SectionView, SplitView, MIN_MERGE_SIZE,
};
use crate::chunk_laws::{
    breadcrumb_keeps_to_its_budget, chunks_lie_in_their_sections, consistent,
    isolated_chunks_stay_in_one_section, lemma_first_lines, lemma_fragments, lemma_sections,
};
use crate::config::{target_size, ChunkingConfig};
use crate::heading::{in_tree, path_of, sections_tile, well_placed, HeadingView};
use crate::lines::line_count;
use crate::section::SectionId;
use crate::text::{lemma_byte_len_bounds, trim, trim_end, trim_start, whitespace};

verus! {

proof fn lemma_trim_concat(a: Seq<char>, b: Seq<char>)
    ensures
        trim(a + b).len() <= a.len() + trim_end(b).len(),
{
    lemma_trim_start_len(a + b);
    let rest = trim_start(a + b);
    if rest.len() <= b.len() {
        assert(rest =~= b.skip(b.len() - rest.len()));
        lemma_trim_end_skip(b, b.len() - rest.len());
    } else {
        let head = a.skip(a.len() - (rest.len() - b.len()));
        assert(rest =~= head + b);
        lemma_trim_end_concat(head, b);
    }
}

proof fn lemma_trim_start_len(s: Seq<char>)
    ensures
        trim_start(s).len() <= s.len(),
        trim_start(s) == s.skip(s.len() - trim_start(s).len()),
    decreases s.len(),
{
    if s.len() > 0 && whitespace(s[0]) {
        lemma_trim_start_len(s.drop_first());
        assert(trim_start(s) =~= s.skip(s.len() - trim_start(s).len()));
    } else {
        assert(s.skip(0) =~= s);
    }
}

proof fn lemma_trim_end_concat(a: Seq<char>, b: Seq<char>)
    ensures
        trim_end(a + b).len() <= a.len() + trim_end(b).len(),
    decreases b.len(),
{
    if b.len() == 0 {
        assert(a + b =~= a);
        lemma_trim_end_len(a);
    } else if whitespace(b.last()) {
        assert((a + b).drop_last() =~= a + b.drop_last());
        lemma_trim_end_concat(a, b.drop_last());
    }
}

proof fn lemma_trim_end_len(s: Seq<char>)
    ensures
        trim_end(s).len() <= s.len(),
    decreases s.len(),
{
    if s.len() > 0 && whitespace(s.last()) {
        lemma_trim_end_len(s.drop_last());
    }
}

proof fn lemma_trim_end_skip(b: Seq<char>, n: int)
    requires
        0 <= n <= b.len(),
    ensures
        trim_end(b.skip(n)).len() <= trim_end(b).len(),
    decreases b.len(),
{
    if n < b.len() && whitespace(b.last()) {
        assert(b.skip(n).drop_last() =~= b.drop_last().skip(n));
        lemma_trim_end_skip(b.drop_last(), n);
    }
}


/// A text that does not end with whitespace keeps its end when it is trimmed.
pub proof fn lemma_trim_start_kept(s: Seq<char>)
    requires
        s.len() > 0,
        !whitespace(s.last()),
    ensures
        trim_start(s).len() > 0,
        trim_start(s).last() == s.last(),
        trim(s) == trim_start(s),
    decreases s.len(),
{
    if whitespace(s[0]) {
        assert(s.drop_first().last() == s.last());
        lemma_trim_start_kept(s.drop_first());
    }
}

pub proof fn lemma_trim_start_concat(a: Seq<char>, b: Seq<char>)
    requires
        trim_start(a).len() > 0,
    ensures
        trim_start(a + b) == trim_start(a) + b,
    decreases a.len(),
{
    if whitespace(a[0]) {
        assert((a + b).drop_first() =~= a.drop_first() + b);
        lemma_trim_start_concat(a.drop_first(), b);
    }
}

/// A text of fewer bytes than [`MIN_MERGE_SIZE`] takes another one up.
proof fn lemma_glued(a: Seq<char>, b: Seq<char>)
    requires
        a.len() > 0,
        !whitespace(a.last()),
        size(a) < MIN_MERGE_SIZE,
        b.len() > 0,
        !whitespace(b.last()),
    ensures
        (a + blank_line() + b).last() == b.last(),
        trim(a + blank_line() + b).len() <= MIN_MERGE_SIZE + 1 + b.len(),
{
    lemma_trim_start_kept(a);
    lemma_byte_len_bounds(trim(a));
    lemma_trim_start_concat(a, blank_line() + b);
    assert(a + blank_line() + b =~= a + (blank_line() + b));
    lemma_trim_start_kept(a + blank_line() + b);
}

/// Whether `raw` starts in section `i` and ends in section `j`.
pub open spec fn spans(sections: Seq<SectionView>, raw: RawView, i: int, j: int) -> bool {
    &&& 0 <= i <= j < sections.len()
    &&& sections[i].line_start <= raw.line_start <= sections[i].line_end
    &&& sections[j].line_start <= raw.line_end <= sections[j].line_end
}

/// Whether `raw`, which starts in section `i` and ends in section `j`, is no
/// larger than such a chunk may be. A section of its own is within the size above
/// which sections are split. Sections that were put together are within the size
/// for that. What was made of the fragments of one section is larger than the
/// former by less than [`MIN_MERGE_SIZE`] and a blank line; if it was added to a
/// chunk of another section, both are within it.
pub open spec fn within_size(
    config: ChunkingConfig,
    headings: Seq<HeadingView>,
    sections: Seq<SectionView>,
    raw: RawView,
    i: int,
    j: int,
) -> bool {
    if oversized(config, sections[j]) {
        if i == j {
            trim(raw.text).len() <= split_limit(config) + MIN_MERGE_SIZE + 1
        } else {
            size(raw.text) <= split_limit(config)
        }
    } else {
        if i == j {
            raw == whole(headings, sections[i]) && size(raw.text) <= split_limit(config)
        } else {
            size(raw.text) <= merge_limit(config)
        }
    }
}

/// Whether `raw` is no larger than a chunk of the sections that it spans may be.
pub open spec fn sized(
    config: ChunkingConfig,
    headings: Seq<HeadingView>,
    sections: Seq<SectionView>,
    raw: RawView,
) -> bool {
    exists|i: int, j: int| #[trigger]
        spans(sections, raw, i, j) && within_size(config, headings, sections, raw, i, j)
}

/// Whether all of `raws` are no larger than they may be.
pub open spec fn all_sized(
    config: ChunkingConfig,
    headings: Seq<HeadingView>,
    sections: Seq<SectionView>,
    raws: Seq<RawView>,
) -> bool {
    forall|k: int| 0 <= k < raws.len() ==> sized(config, headings, sections, #[trigger] raws[k])
}

/// What a piece of `section`, or several of them put together, is like.
spec fn cut_from(section: SectionView, max: int, raw: RawView) -> bool {
    &&& section.line_start <= raw.line_start <= raw.line_end <= section.line_end
    &&& raw.text.len() > 0
    &&& !whitespace(raw.text.last())
    &&& trim(raw.text).len() <= max
}

/// What holds while a section, the last of `sections`, is split.
spec fn splitting(
    config: ChunkingConfig,
    headings: Seq<HeadingView>,
    sections: Seq<SectionView>,
    state: SplitView,
) -> bool {
    &&& all_sized(config, headings, sections, state.chunks)
    &&& state.pending matches Some(p) ==> size(p.text) < MIN_MERGE_SIZE && cut_from(
        sections.last(),
        split_limit(config) + MIN_MERGE_SIZE + 1,
        p,
    )
}

proof fn lemma_placed_piece(
    config: ChunkingConfig,
    headings: Seq<HeadingView>,
    sections: Seq<SectionView>,
    chunks: Seq<RawView>,
    piece: RawView,
)
    requires
        sections.len() > 0,
        oversized(config, sections.last()),
        all_sized(config, headings, sections, chunks),
        cut_from(sections.last(), split_limit(config) + MIN_MERGE_SIZE + 1, piece),
    ensures
        sized(config, headings, sections, piece),
        splitting(config, headings, sections, placed_piece(chunks, piece)),
{
    let s = sections.len() - 1;
    assert(spans(sections, piece, s, s));
}

proof fn lemma_split_sizes(
    config: ChunkingConfig,
    headings: Seq<HeadingView>,
    sections: Seq<SectionView>,
    chunks: Seq<RawView>,
    pieces: Seq<RawView>,
)
    requires
        sections.len() > 0,
        oversized(config, sections.last()),
        all_sized(config, headings, sections, chunks),
        forall|k: int|
            0 <= k < pieces.len() ==> cut_from(
                sections.last(),
                split_limit(config) as int,
                #[trigger] pieces[k],
            ) && pieces[k].text.len() <= split_limit(config),
        forall|j: int, k: int|
            0 <= j < k < pieces.len() ==> (#[trigger] pieces[j]).line_end <= (
            #[trigger] pieces[k]).line_start,
    ensures
        splitting(
            config,
            headings,
            sections,
            split_all(headings, split_limit(config), chunks, pieces),
        ),
        split_all(headings, split_limit(config), chunks, pieces).pending matches Some(p)
            ==> pieces.len() > 0 && p.line_end == pieces.last().line_end,
    decreases pieces.len(),
{
    if pieces.len() > 0 {
        let limit = split_limit(config);
        let fewer = pieces.drop_last();
        assert forall|k: int| 0 <= k < fewer.len() implies #[trigger] fewer[k] == pieces[k] by {}
        lemma_split_sizes(config, headings, sections, chunks, fewer);
        let state = split_all(headings, limit, chunks, fewer);
        let piece = pieces[pieces.len() - 1];
        assert(cut_from(sections.last(), limit as int, piece));
        match state.pending {
            Some(pending) => {
                lemma_glued(pending.text, piece.text);
                assert(fewer[fewer.len() - 1].line_end <= piece.line_start);
                lemma_placed_piece(
                    config,
                    headings,
                    sections,
                    state.chunks,
                    appended(headings, pending, piece),
                );
            },
            None => {
                lemma_placed_piece(config, headings, sections, state.chunks, piece);
            },
        }
    }
}

proof fn lemma_split_done_sizes(
    config: ChunkingConfig,
    headings: Seq<HeadingView>,
    sections: Seq<SectionView>,
    isolate: bool,
    state: SplitView,
)
    requires
        sections.len() > 0,
        oversized(config, sections.last()),
        splitting(config, headings, sections, state),
    ensures
        all_sized(
            config,
            headings,
            sections,
            split_done(headings, split_limit(config), isolate, state),
        ),
{
    let done = split_done(headings, split_limit(config), isolate, state);
    if let Some(tail) = state.pending {
        let s = sections.len() - 1;
        lemma_placed_piece(config, headings, sections, state.chunks, tail);
        if done != state.chunks.push(tail) {
            let last = state.chunks[state.chunks.len() - 1];
            assert(sized(config, headings, sections, last));
            let (i, j) = choose|i: int, j: int| #[trigger]
                spans(sections, last, i, j) && within_size(config, headings, sections, last, i, j);
            let grown = appended(headings, last, tail);
            lemma_byte_len_bounds(trim(grown.text));
            assert(spans(sections, grown, i, s));
            assert(sized(config, headings, sections, grown));
            assert forall|k: int| 0 <= k < done.len() implies sized(
                config,
                headings,
                sections,
                #[trigger] done[k],
            ) by {
                if k < done.len() - 1 {
                    assert(done[k] == state.chunks[k]);
                }
            }
        }
    }
}

proof fn lemma_merge_sizes(
    body: Seq<char>,
    config: ChunkingConfig,
    headings: Seq<HeadingView>,
    fragments: Seq<Seq<FragmentView>>,
    n: int,
)
    requires
        consistent(body, config, headings, fragments),
        0 <= n <= sections_of(body, headings).len(),
    ensures
        all_sized(
            config,
            headings,
            sections_of(body, headings).take(n),
            flushed(
                merge_all(
                    encode_utf8(body),
                    headings,
                    config,
                    sections_of(body, headings).take(n),
                    fragments,
                ),
            ),
        ),
    decreases n,
{
    let bytes = encode_utf8(body);
    let all = sections_of(body, headings);
    if n > 0 {
        let s = n - 1;
        let section = all[s];
        let fewer = all.take(s);
        let sections = all.take(n);
        lemma_merge_sizes(body, config, headings, fragments, s);
        lemma_sections(body, headings, s);
        assert(sections.drop_last() =~= fewer);
        assert(sections.last() == section);
        let before = merge_all(bytes, headings, config, fewer, fragments);
        let after = merge_all(bytes, headings, config, sections, fragments);
        let xs = flushed(before);
        let ys = flushed(after);
        assert forall|k: int| 0 <= k < xs.len() implies sized(
            config,
            headings,
            sections,
            #[trigger] xs[k],
        ) by {
            assert(sized(config, headings, fewer, xs[k]));
            let (i, j) = choose|i: int, j: int| #[trigger]
                spans(fewer, xs[k], i, j) && within_size(config, headings, fewer, xs[k], i, j);
            assert(spans(sections, xs[k], i, j));
        }
        if oversized(config, section) {
            let limit = split_limit(config);
            let parts = fragment_pieces(bytes, headings, section, fragments[s]);
            assert(pieces_of(section.text, limit, fragments[s]));
            assert forall|k: int| 0 <= k < parts.len() implies cut_from(
                section,
                limit as int,
                #[trigger] parts[k],
            ) && parts[k].text.len() <= limit by {
                lemma_fragments(body, headings, limit, s, fragments[s], k);
                assert(parts[k] == fragment_piece(bytes, headings, section, k, fragments[s][k]));
                lemma_trim_start_kept(parts[k].text);
                lemma_trim_start_len(parts[k].text);
            }
            assert forall|j: int, k: int| 0 <= j < k < parts.len() implies (
            #[trigger] parts[j]).line_end <= (#[trigger] parts[k]).line_start by {
                lemma_fragments(body, headings, limit, s, fragments[s], j);
                assert(parts[k] == fragment_piece(bytes, headings, section, k, fragments[s][k]));
            }
            lemma_split_sizes(config, headings, sections, xs, parts);
            lemma_split_done_sizes(
                config,
                headings,
                sections,
                config.heading_metadata,
                split_all(headings, limit, xs, parts),
            );
        } else {
            let piece = whole(headings, section);
            assert(spans(sections, piece, s, s));
            assert(sized(config, headings, sections, piece));
            if before.current is Some && joins(config, before.current->Some_0, section) {
                let last = before.current->Some_0;
                assert(last == xs[xs.len() - 1]);
                assert(sized(config, headings, fewer, last));
                let (i, j) = choose|i: int, j: int| #[trigger]
                    spans(fewer, last, i, j) && within_size(config, headings, fewer, last, i, j);
                let grown = appended(headings, last, piece);
                assert(spans(sections, grown, i, s));
                assert(sized(config, headings, sections, grown));
                assert forall|k: int| 0 <= k < ys.len() implies sized(
                    config,
                    headings,
                    sections,
                    #[trigger] ys[k],
                ) by {
                    if k < ys.len() - 1 {
                        assert(ys[k] == xs[k]);
                    }
                }
            } else {
                assert(ys =~= xs.push(piece));
            }
        }
    }
}

/// Every chunk keeps to the size that the configuration sets for chunks like it:
/// those of one section, of several, and of the fragments of a section that was
/// split.
pub proof fn chunks_keep_to_their_sizes(
    body: Seq<char>,
    config: ChunkingConfig,
    headings: Seq<HeadingView>,
    fragments: Seq<Seq<FragmentView>>,
)
    requires
        consistent(body, config, headings, fragments),
    ensures
        all_sized(
            config,
            headings,
            sections_of(body, headings),
            raw_chunks(body, headings, config, fragments),
        ),
{
    let sections = sections_of(body, headings);
    lemma_merge_sizes(body, config, headings, fragments, sections.len() as int);
    assert(sections.take(sections.len() as int) =~= sections);
}

/// If every section is within the target size, and that is within the maximum,
/// then without a heading path and a description before it every chunk is within
/// the target size.
pub proof fn small_sections_make_small_chunks(
    body: Seq<char>,
    description: Option<Seq<char>>,
    config: ChunkingConfig,
    headings: Seq<HeadingView>,
    fragments: Seq<Seq<FragmentView>>,
    k: int,
)
    requires
        consistent(body, config, headings, fragments),
        !config.prepend_heading_path,
        !config.prepend_description || description is None,
        target_size(config) <= config.max_chunk_size,
        forall|i: int|
            0 <= i < sections_of(body, headings).len() ==> size(
                (#[trigger] sections_of(body, headings)[i]).text,
            ) <= target_size(config),
        0 <= k < chunks_of(body, description, config, headings, fragments).len(),
    ensures
        size(chunks_of(body, description, config, headings, fragments)[k].text) <= target_size(
            config,
        ),
{
    let sections = sections_of(body, headings);
    let raw = raw_chunks(body, headings, config, fragments)[k];
    chunks_keep_to_their_sizes(body, config, headings, fragments);
    assert(sized(config, headings, sections, raw));
    let (i, j) = choose|i: int, j: int| #[trigger]
        spans(sections, raw, i, j) && within_size(config, headings, sections, raw, i, j);
    assert(size(sections[i].text) <= target_size(config));
    assert(size(sections[j].text) <= target_size(config));
}

/// With `heading_metadata` on, no chunk spans several sections.
proof fn lemma_isolated_spans(
    body: Seq<char>,
    config: ChunkingConfig,
    headings: Seq<HeadingView>,
    fragments: Seq<Seq<FragmentView>>,
    k: int,
    i: int,
    j: int,
)
    requires
        consistent(body, config, headings, fragments),
        config.heading_metadata,
        0 <= k < raw_chunks(body, headings, config, fragments).len(),
        spans(
            sections_of(body, headings),
            raw_chunks(body, headings, config, fragments)[k],
            i,
            j,
        ),
    ensures
        i == j,
{
    let sections = sections_of(body, headings);
    let raw = raw_chunks(body, headings, config, fragments)[k];
    let count = line_count(encode_utf8(body));
    let skip = preamble_of(body, headings).len() as int;
    isolated_chunks_stay_in_one_section(body, config, headings, fragments, k);
    sections_tile(headings, count);
    lemma_sections(body, headings, i);
    lemma_sections(body, headings, j);
    if i < j {
        assert(sections[j] == section_of(body, headings, j - skip));
        match raw.section {
            SectionId::Heading(h) => {
                let m = skip + h;
                assert(sections[m] == section_of(body, headings, h as int));
                lemma_sections(body, headings, m);
            },
            _ => {
                lemma_first_lines(headings, count, 0, j - skip);
            },
        }
    }
}

/// How many characters of whitespace `s` starts with.
pub open spec fn indentation(s: Seq<char>) -> int {
    s.len() - trim_start(s).len()
}

/// Without a description, a chunk has no more characters than its text and what
/// was kept free for the heading path. The whitespace at the start of the text,
/// which then stands inside the chunk, counts too.
pub proof fn breadcrumb_adds_no_more_than_its_budget(
    headings: Seq<HeadingView>,
    count: nat,
    config: ChunkingConfig,
    description: Option<Seq<char>>,
    raw: RawView,
)
    requires
        well_placed(headings, count),
        in_tree(raw.breadcrumb, headings.len()),
        !config.prepend_description || description is None,
    ensures
        trim(chunk_text(headings, config, description, raw)).len() <= reserve(config)
            + indentation(raw.text) + trim(raw.text).len(),
{
    breadcrumb_keeps_to_its_budget(headings, count, config, raw.breadcrumb);
    lemma_trim_start_len(raw.text);
    if config.prepend_heading_path {
        if let Some(prefix) = path_prefix(
            path_of(headings, raw.breadcrumb),
            prefix_chars(config),
        ) {
            let n = indentation(raw.text);
            lemma_trim_concat(prefix + blank_line(), raw.text);
            lemma_trim_end_concat(raw.text.take(n), trim_start(raw.text));
            assert(raw.text.take(n) + trim_start(raw.text) =~= raw.text);
        }
    }
}

/// Whether `raw` was made of the fragments of one section.
pub open spec fn fragmentary(
    config: ChunkingConfig,
    sections: Seq<SectionView>,
    raw: RawView,
) -> bool {
    exists|i: int| #[trigger] spans(sections, raw, i, i) && oversized(config, sections[i])
}

/// The room that is kept free for the heading path keeps it from pushing a chunk
/// past the maximum. If the target size is within the maximum, or sections are
/// not put together, then without a description every chunk has at most as many
/// characters as the maximum has bytes, but for the whitespace that its text
/// starts with. One that was made of the fragments of a section may have fewer
/// than [`MIN_MERGE_SIZE`] more, and a blank line.
pub proof fn chunks_keep_to_the_maximum(
    body: Seq<char>,
    description: Option<Seq<char>>,
    config: ChunkingConfig,
    headings: Seq<HeadingView>,
    fragments: Seq<Seq<FragmentView>>,
    k: int,
)
    requires
        consistent(body, config, headings, fragments),
        !config.prepend_description || description is None,
        config.heading_metadata || target_size(config) <= config.max_chunk_size,
        0 <= k < raw_chunks(body, headings, config, fragments).len(),
    ensures
        ({
            let raw = raw_chunks(body, headings, config, fragments)[k];
            let chunk = chunks_of(body, description, config, headings, fragments)[k];
            let more = if fragmentary(config, sections_of(body, headings), raw) {
                MIN_MERGE_SIZE + 1
            } else {
                0
            };
            trim(chunk.text).len() <= config.max_chunk_size + indentation(raw.text) + more
        }),
{
    let sections = sections_of(body, headings);
    let raw = raw_chunks(body, headings, config, fragments)[k];
    let count = line_count(encode_utf8(body));
    chunks_lie_in_their_sections(body, description, config, headings, fragments);
    breadcrumb_adds_no_more_than_its_budget(headings, count, config, description, raw);
    chunks_keep_to_their_sizes(body, config, headings, fragments);
    assert(sized(config, headings, sections, raw));
    let (i, j) = choose|i: int, j: int| #[trigger]
        spans(sections, raw, i, j) && within_size(config, headings, sections, raw, i, j);
    lemma_byte_len_bounds(trim(raw.text));
    if config.heading_metadata {
        lemma_isolated_spans(body, config, headings, fragments, k, i, j);
    }
}

} // verus!
