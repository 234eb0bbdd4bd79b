//! What holds of the chunks of every document.
use vstd::prelude::*;
use vstd::utf8::*;

use crate::chunk::{
    appended, blank_line, chunks_of, flushed, fragment_piece, fragment_pieces, fragment_texts,
    id_of, joins, leading, merge_all, oversized, path_prefix, pieces_of, preamble_of, prefix_chars,
    raw_chunks, raw_in, reserve, section_at, section_of, sections_of, split_all, split_done,
    split_limit, split_step, whole, ChunkView, FragmentView, RawView, SectionView, SplitView,
};
use crate::config::ChunkingConfig;
use crate::heading::{
    above, common, common_ancestor_is_deepest, in_tree, lemma_above_bound, lemma_above_transitive,
    lemma_lines_ascend, lemma_parent, parent_of, path_of, preamble_end, sections_tile, well_placed,
    HeadingView,
};
use crate::lines::{
    lemma_line_at_monotone, lemma_line_starts, lemma_range, lemma_range_lines, line_count,
    line_starts, range_end, range_start, NEWLINE,
};
use crate::section::{merged_section_covers, section_first, section_last, section_path, SectionId};
use crate::text::{
    byte_len, byte_slice, dense, join, lemma_ascii_boundaries, lemma_byte_len_bounds,
    lemma_byte_slice, lemma_dense_concat, lemma_dense_join, lemma_dense_line_feed,
    lemma_dense_trim, lemma_encode_injective, lemma_encode_one, lemma_slices, lemma_whole_slice,
};

verus! {

/// What a body, its headings and the fragments of its sections are like: the
/// headings have markdown's levels and their places in the hierarchy, and the
/// fragments of each section that is split are the pieces of it.
pub open spec fn consistent(
    body: Seq<char>,
    config: ChunkingConfig,
    headings: Seq<HeadingView>,
    fragments: Seq<Seq<FragmentView>>,
) -> bool {
    &&& well_placed(headings, line_count(encode_utf8(body)))
    &&& headings.len() <= usize::MAX
    &&& forall|i: int| 0 <= i < headings.len() ==> 1 <= (#[trigger] headings[i]).level <= 6
    &&& fragments.len() == sections_of(body, headings).len()
    &&& forall|i: int|
        0 <= i < fragments.len() && oversized(config, sections_of(body, headings)[i]) ==> pieces_of(
            sections_of(body, headings)[i].text,
            split_limit(config),
            #[trigger] fragments[i],
        )
}

/// What a raw chunk is like: its lines are in the section it is attributed to,
/// and the heading whose path is put before it is the heading of that section or
/// one of its ancestors.
pub open spec fn attributed(headings: Seq<HeadingView>, count: nat, raw: RawView) -> bool {
    &&& raw_in(raw, headings.len())
    &&& 1 <= section_first(headings, raw.section) <= raw.line_start <= raw.line_end
        <= section_last(headings, count, raw.section) <= count
    &&& raw.breadcrumb matches Some(x) ==> raw.section matches SectionId::Heading(s) && above(
        headings,
        x,
        Some(s as int),
    )
}

/// Whether all of `raws` are attributed, and each starts no earlier than the ones
/// before it end.
pub open spec fn in_order(headings: Seq<HeadingView>, count: nat, raws: Seq<RawView>) -> bool {
    &&& forall|i: int| 0 <= i < raws.len() ==> attributed(headings, count, #[trigger] raws[i])
    &&& forall|i: int, j: int|
        0 <= i < j < raws.len() ==> (#[trigger] raws[i]).line_end <= (
        #[trigger] raws[j]).line_start
}

/// Whether `raw` lies in one heading's own section, or in the preamble, and is
/// attributed to it.
pub open spec fn in_one_section(headings: Seq<HeadingView>, count: nat, raw: RawView) -> bool {
    match raw.section {
        SectionId::Root => false,
        SectionId::Preamble => 1 <= raw.line_start <= raw.line_end <= preamble_end(headings, count),
        SectionId::Heading(i) => i < headings.len() && headings[i as int].line <= raw.line_start
            <= raw.line_end <= headings[i as int].section_end,
    }
}

/// The texts of a list of raw chunks.
pub open spec fn texts(raws: Seq<RawView>) -> Seq<Seq<char>> {
    raws.map_values(|r: RawView| r.text)
}

/// `ys` is `xs` with one more piece: as a raw chunk of its own, or added to the
/// last one. If `same`, it is added only to one of its own section.
spec fn grows(
    headings: Seq<HeadingView>,
    same: bool,
    xs: Seq<RawView>,
    piece: RawView,
    ys: Seq<RawView>,
) -> bool {
    ||| ys == xs.push(piece)
    ||| {
        &&& xs.len() > 0
        &&& same ==> xs.last().section == piece.section
        &&& ys == xs.drop_last().push(appended(headings, xs.last(), piece))
    }
}

/// What two attributed pieces make is attributed.
proof fn lemma_appended(headings: Seq<HeadingView>, count: nat, a: RawView, b: RawView)
    requires
        well_placed(headings, count),
        headings.len() <= usize::MAX,
        attributed(headings, count, a),
        attributed(headings, count, b),
        a.line_start <= b.line_start,
    ensures
        attributed(headings, count, appended(headings, a, b)),
        a.section == b.section && in_one_section(headings, count, a) && in_one_section(
            headings,
            count,
            b,
        ) ==> in_one_section(headings, count, appended(headings, a, b)),
{
    let c = appended(headings, a, b);
    merged_section_covers(headings, count, a.section, b.section);
    common_ancestor_is_deepest(headings, a.breadcrumb, b.breadcrumb);
    sections_tile(headings, count);
    if let Some(x) = c.breadcrumb {
        assert(above(headings, x, a.breadcrumb));
        assert(above(headings, x, b.breadcrumb));
        lemma_above_bound(headings, x, a.breadcrumb);
        lemma_above_bound(headings, x, b.breadcrumb);
        let s = a.section->Heading_0;
        let t = b.section->Heading_0;
        lemma_above_transitive(headings, x, a.breadcrumb->Some_0, Some(s as int));
        lemma_above_transitive(headings, x, b.breadcrumb->Some_0, Some(t as int));
        common_ancestor_is_deepest(headings, Some(s as int), Some(t as int));
        if s != t {
            let m = common(headings, Some(s as int), Some(t as int));
            assert(m is Some);
            lemma_above_bound(headings, m->Some_0, Some(s as int));
            assert(above(headings, x, m));
        }
    }
}

proof fn lemma_grows(
    headings: Seq<HeadingView>,
    count: nat,
    same: bool,
    xs: Seq<RawView>,
    piece: RawView,
    ys: Seq<RawView>,
)
    requires
        well_placed(headings, count),
        headings.len() <= usize::MAX,
        in_order(headings, count, xs),
        attributed(headings, count, piece),
        xs.len() > 0 ==> xs.last().line_end <= piece.line_start,
        grows(headings, same, xs, piece, ys),
    ensures
        in_order(headings, count, ys),
        ys.len() > 0,
        ys.last().line_end == piece.line_end,
        same && in_one_section(headings, count, piece) && (forall|i: int|
            0 <= i < xs.len() ==> in_one_section(headings, count, #[trigger] xs[i])) ==> (forall|
            i: int,
        |
            0 <= i < ys.len() ==> in_one_section(headings, count, #[trigger] ys[i])),
{
    if ys == xs.push(piece) {
        assert forall|i: int, j: int| 0 <= i < j < ys.len() implies (#[trigger] ys[i]).line_end <= (
        #[trigger] ys[j]).line_start by {
            if j == xs.len() && i < xs.len() - 1 {
                assert(attributed(headings, count, xs[xs.len() - 1]));
                assert(xs[i].line_end <= xs[xs.len() - 1].line_start);
            }
        }
    } else {
        let last = xs[xs.len() - 1];
        assert(attributed(headings, count, last));
        lemma_appended(headings, count, last, piece);
        assert forall|i: int| 0 <= i < ys.len() implies attributed(
            headings,
            count,
            #[trigger] ys[i],
        ) by {
            if i < ys.len() - 1 {
                assert(ys[i] == xs[i]);
            }
        }
        assert forall|i: int, j: int| 0 <= i < j < ys.len() implies (#[trigger] ys[i]).line_end <= (
        #[trigger] ys[j]).line_start by {
            assert(xs[i].line_end <= xs[j].line_start);
        }
        assert(same ==> in_one_section(headings, count, last) ==> in_one_section(
            headings,
            count,
            piece,
        ) ==> in_one_section(headings, count, ys[ys.len() - 1]));
        assert forall|i: int| 0 <= i < ys.len() - 1 implies #[trigger] ys[i] == xs[i] by {}
    }
}

/// What the sections of a body are like: whole sections are attributed to their
/// headings, and the sections are in order.
pub proof fn lemma_sections(body: Seq<char>, headings: Seq<HeadingView>, i: int)
    requires
        well_placed(headings, line_count(encode_utf8(body))),
        headings.len() <= usize::MAX,
        0 <= i < sections_of(body, headings).len(),
    ensures
        ({
            let section = sections_of(body, headings)[i];
            let count = line_count(encode_utf8(body));
            &&& section == section_at(body, section.line_start, section.line_end, section.heading)
            &&& in_tree(section.heading, headings.len())
            &&& 1 <= section.line_start <= section.line_end <= count
            &&& attributed(headings, count, whole(headings, section))
            &&& in_one_section(headings, count, whole(headings, section))
        }),
        forall|j: int|
            i < j < sections_of(body, headings).len() ==> sections_of(body, headings)[i].line_end
                < (#[trigger] sections_of(body, headings)[j]).line_start,
{
    let count = line_count(encode_utf8(body));
    let sections = sections_of(body, headings);
    let skip = preamble_of(body, headings).len() as int;
    sections_tile(headings, count);
    assert forall|j: int| skip <= j < sections.len() implies #[trigger] sections[j] == section_of(
        body,
        headings,
        j - skip,
    ) by {}
    let section = sections[i];
    if i >= skip {
        let h = i - skip;
        assert(section == section_of(body, headings, h));
        lemma_parent(headings, count, h);
        if let Some(p) = headings[h].parent {
            assert(above(headings, p, Some(p)));
            assert(above(headings, p, Some(h)));
        }
    }
    assert forall|j: int| i < j < sections.len() implies section.line_end < (
    #[trigger] sections[j]).line_start by {
        let h = j - skip;
        assert(sections[j] == section_of(body, headings, h));
        lemma_first_lines(headings, count, 0, h);
        if i >= skip {
            lemma_first_lines(headings, count, i - skip + 1, h);
            assert(headings[i - skip].section_end + 1 == headings[i - skip + 1].line);
        }
    }
}

pub proof fn lemma_first_lines(headings: Seq<HeadingView>, count: nat, i: int, j: int)
    requires
        well_placed(headings, count),
        0 <= i <= j < headings.len(),
    ensures
        headings[i].line <= headings[j].line,
{
    if i < j {
        lemma_lines_ascend(headings, count, i, j);
    }
}

/// What the fragments of a section are like: they are attributed to it, and in
/// order.
pub proof fn lemma_fragments(
    body: Seq<char>,
    headings: Seq<HeadingView>,
    limit: nat,
    i: int,
    fragments: Seq<FragmentView>,
    k: int,
)
    requires
        well_placed(headings, line_count(encode_utf8(body))),
        headings.len() <= usize::MAX,
        0 <= i < sections_of(body, headings).len(),
        pieces_of(sections_of(body, headings)[i].text, limit, fragments),
        0 <= k < fragments.len(),
    ensures
        ({
            let section = sections_of(body, headings)[i];
            let count = line_count(encode_utf8(body));
            let piece = fragment_piece(encode_utf8(body), headings, section, k, fragments[k]);
            &&& attributed(headings, count, piece)
            &&& in_one_section(headings, count, piece)
            &&& section.line_start <= piece.line_start <= piece.line_end <= section.line_end
            &&& forall|j: int|
                k < j < fragments.len() ==> piece.line_end <= fragment_piece(
                    encode_utf8(body),
                    headings,
                    section,
                    j,
                    #[trigger] fragments[j],
                ).line_start
        }),
{
    let bytes = encode_utf8(body);
    let count = line_count(bytes);
    let section = sections_of(body, headings)[i];
    lemma_sections(body, headings, i);
    let start = range_start(bytes, section.line_start);
    let end = range_end(bytes, section.line_start, section.line_end);
    encode_utf8_valid_utf8(body);
    lemma_range(bytes, section.line_start, section.line_end);
    lemma_byte_slice(body, start, end);
    let piece = fragment_piece(bytes, headings, section, k, fragments[k]);
    lemma_range_lines(bytes, section.line_start, section.line_end, start + fragments[k].0);
    if let Some(h) = section.heading {
        assert(above(headings, h, Some(h)));
    }
    let w = whole(headings, section);
    assert(piece.section == w.section);
    assert(w.line_start <= piece.line_start <= piece.line_end <= w.line_end);
    assert forall|j: int| k < j < fragments.len() implies piece.line_end <= fragment_piece(
        bytes,
        headings,
        section,
        j,
        #[trigger] fragments[j],
    ).line_start by {
        assert(fragments[k].0 + byte_len(fragments[k].1) <= fragments[j].0);
        lemma_byte_len_bounds(fragments[k].1);
        lemma_line_at_monotone(bytes, start + fragments[k].0, start + fragments[j].0);
        lemma_line_at_monotone(
            bytes,
            start + fragments[k].0 + byte_len(fragments[k].1) - 1,
            start + fragments[j].0,
        );
    }
}

/// What holds of the raw chunks that were made of `pieces`.
spec fn made_of(
    headings: Seq<HeadingView>,
    count: nat,
    isolate: bool,
    raws: Seq<RawView>,
    pieces: Seq<Seq<char>>,
) -> bool {
    &&& in_order(headings, count, raws)
    &&& isolate ==> forall|i: int|
        0 <= i < raws.len() ==> in_one_section(headings, count, #[trigger] raws[i])
    &&& join(texts(raws), blank_line()) == join(pieces, blank_line())
    &&& raws.len() == 0 <==> pieces.len() == 0
}

proof fn lemma_join_push(parts: Seq<Seq<char>>, part: Seq<char>)
    ensures
        join(parts.push(part), blank_line()) == (if parts.len() == 0 {
            part
        } else {
            join(parts, blank_line()) + blank_line() + part
        }),
{
    assert(parts.push(part).drop_last() =~= parts);
}

/// Adding to the last text is like adding a text.
proof fn lemma_join_append(parts: Seq<Seq<char>>, part: Seq<char>)
    requires
        parts.len() > 0,
    ensures
        join(parts.drop_last().push(parts.last() + blank_line() + part), blank_line()) == join(
            parts.push(part),
            blank_line(),
        ),
{
    let rest = parts.drop_last();
    let sep = blank_line();
    lemma_join_push(rest, parts.last() + sep + part);
    lemma_join_push(rest, parts.last());
    lemma_join_push(parts, part);
    assert(rest.push(parts.last()) =~= parts);
    if rest.len() > 0 {
        assert(join(rest, sep) + sep + (parts.last() + sep + part) =~= (join(rest, sep) + sep
            + parts.last()) + sep + part);
    }
}

proof fn lemma_made_of_grows(
    headings: Seq<HeadingView>,
    count: nat,
    isolate: bool,
    xs: Seq<RawView>,
    pieces: Seq<Seq<char>>,
    piece: RawView,
    ys: Seq<RawView>,
)
    requires
        well_placed(headings, count),
        headings.len() <= usize::MAX,
        made_of(headings, count, isolate, xs, pieces),
        attributed(headings, count, piece),
        in_one_section(headings, count, piece),
        xs.len() > 0 ==> xs.last().line_end <= piece.line_start,
        grows(headings, isolate, xs, piece, ys),
    ensures
        made_of(headings, count, isolate, ys, pieces.push(piece.text)),
        ys.len() > 0,
        ys.last().line_end == piece.line_end,
{
    lemma_grows(headings, count, isolate, xs, piece, ys);
    lemma_join_push(pieces, piece.text);
    lemma_join_push(texts(xs), piece.text);
    if ys == xs.push(piece) {
        assert(texts(ys) =~= texts(xs).push(piece.text));
    } else {
        lemma_join_append(texts(xs), piece.text);
        assert(texts(ys) =~= texts(xs).drop_last().push(
            texts(xs).last() + blank_line() + piece.text,
        ));
    }
}

/// All raw chunks of a split section, a pending one with them.
spec fn total(state: SplitView) -> Seq<RawView> {
    match state.pending {
        Some(pending) => state.chunks.push(pending),
        None => state.chunks,
    }
}

proof fn lemma_split_step(
    headings: Seq<HeadingView>,
    limit: nat,
    state: SplitView,
    piece: RawView,
)
    requires
        state.pending matches Some(p) ==> p.section == piece.section,
    ensures
        grows(headings, true, total(state), piece, total(split_step(headings, limit, state, piece))),
        split_step(headings, limit, state, piece).pending matches Some(p) ==> p.section
            == piece.section,
{
    if let Some(pending) = state.pending {
        assert(total(state).drop_last() =~= state.chunks);
        assert(total(state).last() == pending);
    }
}

proof fn lemma_split_all(
    body: Seq<char>,
    headings: Seq<HeadingView>,
    isolate: bool,
    limit: nat,
    i: int,
    fragments: Seq<FragmentView>,
    chunks: Seq<RawView>,
    pieces: Seq<Seq<char>>,
    k: int,
)
    requires
        well_placed(headings, line_count(encode_utf8(body))),
        headings.len() <= usize::MAX,
        0 <= i < sections_of(body, headings).len(),
        pieces_of(sections_of(body, headings)[i].text, limit, fragments),
        made_of(headings, line_count(encode_utf8(body)), isolate, chunks, pieces),
        chunks.len() > 0 ==> chunks.last().line_end <= sections_of(body, headings)[i].line_start,
        0 <= k <= fragments.len(),
    ensures
        ({
            let section = sections_of(body, headings)[i];
            let parts = fragment_pieces(encode_utf8(body), headings, section, fragments);
            let state = split_all(headings, limit, chunks, parts.take(k));
            &&& made_of(
                headings,
                line_count(encode_utf8(body)),
                isolate,
                total(state),
                pieces + texts(parts.take(k)),
            )
            &&& state.pending matches Some(p) ==> p.section == id_of(section)
            &&& k > 0 ==> total(state).len() > 0 && total(state).last().line_end == parts[k
                - 1].line_end
            &&& k == 0 ==> state == (SplitView { chunks, pending: None })
        }),
    decreases k,
{
    let bytes = encode_utf8(body);
    let count = line_count(bytes);
    let section = sections_of(body, headings)[i];
    let parts = fragment_pieces(bytes, headings, section, fragments);
    if k == 0 {
        assert(parts.take(0) =~= seq![]);
        assert(pieces + texts(parts.take(0)) =~= pieces);
    } else {
        lemma_split_all(body, headings, isolate, limit, i, fragments, chunks, pieces, k - 1);
        let before = split_all(headings, limit, chunks, parts.take(k - 1));
        let piece = parts[k - 1];
        assert(parts.take(k).drop_last() =~= parts.take(k - 1));
        assert(parts.take(k).last() == piece);
        lemma_fragments(body, headings, limit, i, fragments, k - 1);
        if k > 1 {
            lemma_fragments(body, headings, limit, i, fragments, k - 2);
            assert(parts[k - 2].line_end <= piece.line_start);
        }
        lemma_split_step(headings, limit, before, piece);
        let after = split_step(headings, limit, before, piece);
        assert(grows(headings, isolate, total(before), piece, total(after)));
        lemma_made_of_grows(
            headings,
            count,
            isolate,
            total(before),
            pieces + texts(parts.take(k - 1)),
            piece,
            total(after),
        );
        assert((pieces + texts(parts.take(k - 1))).push(piece.text) =~= pieces + texts(
            parts.take(k),
        ));
    }
}

/// Putting the last piece to the chunk before it changes nothing of what holds.
proof fn lemma_split_done(
    headings: Seq<HeadingView>,
    count: nat,
    isolate: bool,
    limit: nat,
    state: SplitView,
    pieces: Seq<Seq<char>>,
)
    requires
        well_placed(headings, count),
        headings.len() <= usize::MAX,
        made_of(headings, count, isolate, total(state), pieces),
    ensures
        made_of(headings, count, isolate, split_done(headings, limit, isolate, state), pieces),
        split_done(headings, limit, isolate, state).len() > 0 ==> total(state).len() > 0
            && split_done(headings, limit, isolate, state).last().line_end == total(
            state,
        ).last().line_end,
{
    let xs = total(state);
    let ys = split_done(headings, limit, isolate, state);
    if ys != xs {
        let tail = state.pending->Some_0;
        let chunks = state.chunks;
        let last = chunks[chunks.len() - 1];
        let n = chunks.len() as int;
        assert(xs[n] == tail);
        assert(xs[n - 1] == last);
        assert(attributed(headings, count, xs[n]));
        assert(attributed(headings, count, xs[n - 1]));
        assert(isolate ==> in_one_section(headings, count, xs[n]) && in_one_section(
            headings,
            count,
            xs[n - 1],
        ));
        lemma_appended(headings, count, last, tail);
        assert forall|i: int| 0 <= i < ys.len() - 1 implies #[trigger] ys[i] == xs[i] by {}
        assert forall|i: int, j: int| 0 <= i < j < ys.len() implies (#[trigger] ys[i]).line_end <= (
        #[trigger] ys[j]).line_start by {
            assert(xs[i].line_end <= xs[j].line_start);
        }
        lemma_join_append(texts(chunks), tail.text);
        assert(texts(xs) =~= texts(chunks).push(tail.text));
        assert(texts(ys) =~= texts(chunks).drop_last().push(
            texts(chunks).last() + blank_line() + tail.text,
        ));
    }
}

/// The texts of the pieces that the first `n` sections are put together from:
/// the section itself, or its fragments.
pub open spec fn piece_texts(
    config: ChunkingConfig,
    sections: Seq<SectionView>,
    fragments: Seq<Seq<FragmentView>>,
    n: int,
) -> Seq<Seq<char>>
    decreases n,
{
    if n <= 0 {
        seq![]
    } else if oversized(config, sections[n - 1]) {
        piece_texts(config, sections, fragments, n - 1) + fragment_texts(fragments[n - 1])
    } else {
        piece_texts(config, sections, fragments, n - 1).push(sections[n - 1].text)
    }
}

proof fn lemma_merge_all(
    body: Seq<char>,
    headings: Seq<HeadingView>,
    config: ChunkingConfig,
    fragments: Seq<Seq<FragmentView>>,
    n: int,
)
    requires
        consistent(body, config, headings, fragments),
        0 <= n <= sections_of(body, headings).len(),
    ensures
        ({
            let sections = sections_of(body, headings);
            let raws = flushed(
                merge_all(encode_utf8(body), headings, config, sections.take(n), fragments),
            );
            &&& made_of(
                headings,
                line_count(encode_utf8(body)),
                config.heading_metadata,
                raws,
                piece_texts(config, sections, fragments, n),
            )
            &&& raws.len() > 0 && n > 0 ==> raws.last().line_end <= sections[n - 1].line_end
            &&& n == 0 ==> raws.len() == 0
        }),
    decreases n,
{
    let bytes = encode_utf8(body);
    let count = line_count(bytes);
    let sections = sections_of(body, headings);
    if n == 0 {
        assert(sections.take(0) =~= seq![]);
        assert(texts(seq![]) =~= seq![]);
    } else {
        let isolate = config.heading_metadata;
        let i = n - 1;
        lemma_merge_all(body, headings, config, fragments, i);
        let before = merge_all(bytes, headings, config, sections.take(i), fragments);
        let after = merge_all(bytes, headings, config, sections.take(n), fragments);
        let pieces = piece_texts(config, sections, fragments, i);
        let section = sections[i];
        assert(sections.take(n).drop_last() =~= sections.take(i));
        assert(sections.take(n).last() == section);
        lemma_sections(body, headings, i);
        if i > 0 {
            lemma_sections(body, headings, i - 1);
            assert(sections[i - 1].line_end < sections[i].line_start);
        }
        if oversized(config, section) {
            let limit = split_limit(config);
            assert(pieces_of(section.text, limit, fragments[i]));
            let parts = fragment_pieces(bytes, headings, section, fragments[i]);
            let k = fragments[i].len() as int;
            lemma_split_all(
                body,
                headings,
                isolate,
                limit,
                i,
                fragments[i],
                flushed(before),
                pieces,
                k,
            );
            assert(parts.take(k) =~= parts);
            let state = split_all(headings, limit, flushed(before), parts);
            let done = pieces + texts(parts);
            lemma_split_done(headings, count, isolate, limit, state, done);
            assert(texts(parts) =~= fragment_texts(fragments[i]));
            if k > 0 {
                lemma_fragments(body, headings, limit, i, fragments[i], k - 1);
                assert(in_one_section(headings, count, parts[k - 1]));
                assert(in_one_section(headings, count, whole(headings, section)));
            }
        } else {
            let piece = whole(headings, section);
            let xs = flushed(before);
            let ys = flushed(after);
            if before.current is Some && joins(config, before.current->Some_0, section) {
                assert(xs.drop_last() =~= before.chunks);
                assert(ys =~= xs.drop_last().push(appended(headings, xs.last(), piece)));
            } else {
                assert(ys =~= xs.push(piece));
            }
            assert(grows(headings, isolate, xs, piece, ys));
            lemma_made_of_grows(headings, count, isolate, xs, pieces, piece, ys);
        }
    }
}

/// Chunks are numbered from 0. Each lies in the section it is attributed to,
/// which is a part of the body, and starts no earlier than the chunks before it
/// end. The level of a chunk is that of a heading, or 0 if it has no heading path.
pub proof fn chunks_lie_in_their_sections(
    body: Seq<char>,
    description: Option<Seq<char>>,
    config: ChunkingConfig,
    headings: Seq<HeadingView>,
    fragments: Seq<Seq<FragmentView>>,
)
    requires
        consistent(body, config, headings, fragments),
    ensures
        well_covered(
            chunks_of(body, description, config, headings, fragments),
            line_count(encode_utf8(body)),
        ),
        in_order(
            headings,
            line_count(encode_utf8(body)),
            raw_chunks(body, headings, config, fragments),
        ),
{
    let sections = sections_of(body, headings);
    lemma_merge_all(body, headings, config, fragments, sections.len() as int);
    assert(sections.take(sections.len() as int) =~= sections);
    let raws = raw_chunks(body, headings, config, fragments);
    let chunks = chunks_of(body, description, config, headings, fragments);
    assert forall|i: int| 0 <= i < chunks.len() implies (#[trigger] chunks[i]).line_start
        == raws[i].line_start && chunks[i].line_end == raws[i].line_end && chunks[i].index == i && 1
        <= chunks[i].section_line_start <= chunks[i].line_start <= chunks[i].line_end
        <= chunks[i].section_line_end <= line_count(encode_utf8(body)) && chunks[i].heading_level
        <= 6 && (chunks[i].heading_level == 0 <==> chunks[i].heading_path.len() == 0) by {
        assert(attributed(headings, line_count(encode_utf8(body)), raws[i]));
        if let SectionId::Heading(h) = raws[i].section {
            assert(1 <= headings[h as int].level <= 6);
        }
    }
}

/// Whether `chunks` are numbered, lie in their sections in a body of `count`
/// lines, have a level exactly if they have a heading path, and are in order: at
/// most a line that one ends on is also the line that the next starts on.
pub open spec fn well_covered(chunks: Seq<ChunkView>, count: nat) -> bool {
    &&& forall|i: int|
        0 <= i < chunks.len() ==> (#[trigger] chunks[i]).index == i && 1
            <= chunks[i].section_line_start <= chunks[i].line_start <= chunks[i].line_end
            <= chunks[i].section_line_end <= count
    &&& forall|i: int|
        0 <= i < chunks.len() ==> (#[trigger] chunks[i]).heading_level <= 6 && (
        chunks[i].heading_level == 0 <==> chunks[i].heading_path.len() == 0)
    &&& forall|i: int, j: int|
        0 <= i < j < chunks.len() ==> (#[trigger] chunks[i]).line_end <= (
        #[trigger] chunks[j]).line_start
}

/// With `heading_metadata` on, every chunk lies in the section of one heading or
/// in the preamble, and is attributed to it, never to the whole body.
pub proof fn isolated_chunks_stay_in_one_section(
    body: Seq<char>,
    config: ChunkingConfig,
    headings: Seq<HeadingView>,
    fragments: Seq<Seq<FragmentView>>,
    i: int,
)
    requires
        consistent(body, config, headings, fragments),
        config.heading_metadata,
        0 <= i < raw_chunks(body, headings, config, fragments).len(),
    ensures
        in_one_section(
            headings,
            line_count(encode_utf8(body)),
            raw_chunks(body, headings, config, fragments)[i],
        ),
{
    let sections = sections_of(body, headings);
    lemma_merge_all(body, headings, config, fragments, sections.len() as int);
    assert(sections.take(sections.len() as int) =~= sections);
}

/// Whether `chunk` lies in the preamble, or in the section of one heading, and is
/// attributed to exactly that: with the path, the level and the subtree of the
/// heading.
pub open spec fn stays_in_one_section(
    headings: Seq<HeadingView>,
    count: nat,
    chunk: ChunkView,
) -> bool {
    ||| {
        &&& chunk.heading_path.len() == 0
        &&& chunk.heading_level == 0
        &&& chunk.section_line_start == 1
        &&& chunk.section_line_end == preamble_end(headings, count)
        &&& 1 <= chunk.line_start <= chunk.line_end <= preamble_end(headings, count)
    }
    ||| exists|i: int|
        {
            &&& 0 <= i < headings.len()
            &&& chunk.heading_path == path_of(headings, Some(i))
            &&& chunk.heading_level == (#[trigger] headings[i]).level
            &&& chunk.section_line_start == headings[i].line
            &&& chunk.section_line_end == headings[i].subtree_end
            &&& headings[i].line <= chunk.line_start <= chunk.line_end <= headings[i].section_end
        }
}

/// With `heading_metadata` on, no chunk crosses a heading: each stays in one
/// section and is attributed to it.
pub proof fn isolated_chunks_are_attributed_exactly(
    body: Seq<char>,
    description: Option<Seq<char>>,
    config: ChunkingConfig,
    headings: Seq<HeadingView>,
    fragments: Seq<Seq<FragmentView>>,
)
    requires
        consistent(body, config, headings, fragments),
        config.heading_metadata,
    ensures
        all_stay_in_one_section(
            headings,
            line_count(encode_utf8(body)),
            chunks_of(body, description, config, headings, fragments),
        ),
{
    let count = line_count(encode_utf8(body));
    let raws = raw_chunks(body, headings, config, fragments);
    let chunks = chunks_of(body, description, config, headings, fragments);
    assert forall|k: int| 0 <= k < chunks.len() implies stays_in_one_section(
        headings,
        count,
        #[trigger] chunks[k],
    ) by {
        isolated_chunks_stay_in_one_section(body, config, headings, fragments, k);
        if let SectionId::Heading(i) = raws[k].section {
            assert(chunks[k].heading_level == headings[i as int].level);
        }
    }
}

/// Whether all of `chunks` stay in one section.
pub open spec fn all_stay_in_one_section(
    headings: Seq<HeadingView>,
    count: nat,
    chunks: Seq<ChunkView>,
) -> bool {
    forall|k: int|
        0 <= k < chunks.len() ==> stays_in_one_section(headings, count, #[trigger] chunks[k])
}

proof fn lemma_blank_line()
    ensures
        dense(blank_line()) == Seq::<char>::empty(),
{
    let line = blank_line();
    assert(line.drop_last().drop_last() =~= seq![]);
    assert(dense(line.drop_last()) == dense(line.drop_last().drop_last()));
}

/// More texts join like the texts that they are pieces of.
proof fn lemma_dense_pieces(parts: Seq<Seq<char>>, more: Seq<Seq<char>>)
    ensures
        dense(join(parts + more, blank_line())) == dense(join(parts, blank_line())) + dense(
            join(more, seq![]),
        ),
    decreases more.len(),
{
    lemma_blank_line();
    if more.len() == 0 {
        assert(parts + more =~= parts);
        assert(dense(join(parts, blank_line())) + dense(join(more, seq![])) =~= dense(
            join(parts, blank_line()),
        ));
    } else {
        let fewer = more.drop_last();
        lemma_dense_pieces(parts, fewer);
        lemma_dense_join(parts + fewer, more.last(), blank_line());
        lemma_dense_join(fewer, more.last(), seq![]);
        assert((parts + fewer).push(more.last()) =~= parts + more);
        assert(fewer.push(more.last()) =~= more);
        assert(dense(join(parts + more, blank_line())) =~= dense(join(parts, blank_line())) + dense(
            join(more, seq![]),
        ));
    }
}

/// The pieces of one more section hold its text.
proof fn lemma_dense_section(
    body: Seq<char>,
    config: ChunkingConfig,
    headings: Seq<HeadingView>,
    fragments: Seq<Seq<FragmentView>>,
    n: int,
)
    requires
        consistent(body, config, headings, fragments),
        0 <= n < sections_of(body, headings).len(),
    ensures
        ({
            let sections = sections_of(body, headings);
            dense(join(piece_texts(config, sections, fragments, n + 1), blank_line())) == dense(
                join(piece_texts(config, sections, fragments, n), blank_line()),
            ) + dense(sections[n].text)
        }),
{
    let sections = sections_of(body, headings);
    let parts = piece_texts(config, sections, fragments, n);
    if oversized(config, sections[n]) {
        assert(pieces_of(sections[n].text, split_limit(config), fragments[n]));
        lemma_dense_pieces(parts, fragment_texts(fragments[n]));
    } else {
        lemma_blank_line();
        lemma_dense_join(parts, sections[n].text, blank_line());
    }
}

/// Where the section of the heading before heading `m` ends, or the preamble.
spec fn end_before(body: Seq<char>, headings: Seq<HeadingView>, m: int) -> int {
    let bytes = encode_utf8(body);
    let last = preamble_end(headings, line_count(bytes));
    if m > 0 {
        range_end(bytes, headings[m - 1].line as int, headings[m - 1].section_end)
    } else if last > 0 {
        range_end(bytes, 1, last)
    } else {
        0
    }
}

/// The body up to the end of a section is the body up to the end of the section
/// before it, and the section.
proof fn lemma_dense_body(body: Seq<char>, headings: Seq<HeadingView>, m: int)
    requires
        well_placed(headings, line_count(encode_utf8(body))),
        0 <= m < headings.len(),
    ensures
        dense(byte_slice(body, 0, end_before(body, headings, m + 1))) == dense(
            byte_slice(body, 0, end_before(body, headings, m)),
        ) + dense(section_of(body, headings, m).text),
{
    let bytes = encode_utf8(body);
    let count = line_count(bytes);
    let first = headings[m].line as int;
    let last = headings[m].section_end;
    let before = end_before(body, headings, m);
    let start = range_start(bytes, first);
    let end = range_end(bytes, first, last);
    encode_utf8_valid_utf8(body);
    sections_tile(headings, count);
    is_char_boundary_start_end_of_seq(bytes);
    lemma_line_starts(bytes);
    lemma_range(bytes, first, last);
    lemma_slices(body, 0, start, end);
    lemma_dense_concat(byte_slice(body, 0, start), byte_slice(body, start, end));
    if first > 1 {
        let above = line_starts(bytes)[first - 1] - 1;
        if m > 0 {
            assert(headings[m - 1].section_end + 1 == headings[m].line);
        }
        assert(before == above);
        assert(bytes[above] == NEWLINE);
        lemma_ascii_boundaries(bytes, above);
        lemma_slices(body, 0, above, start);
        lemma_byte_slice(body, above, start);
        lemma_encode_one('\n');
        assert(10u32 & 0x7f == 10) by (bit_vector);
        assert(encode_scalar('\n' as u32) =~= bytes.subrange(above, start));
        lemma_encode_injective(byte_slice(body, above, start), seq!['\n']);
        lemma_dense_line_feed(byte_slice(body, 0, above));
        assert(byte_slice(body, 0, start) =~= byte_slice(body, 0, above).push('\n'));
    } else {
        assert(m == 0) by {
            if m > 0 {
                assert(headings[m - 1].section_end + 1 == headings[m].line);
            }
        }
        assert(before == 0 && start == 0);
    }
}

proof fn lemma_dense_cover(
    body: Seq<char>,
    config: ChunkingConfig,
    headings: Seq<HeadingView>,
    fragments: Seq<Seq<FragmentView>>,
    m: int,
)
    requires
        consistent(body, config, headings, fragments),
        0 <= m <= headings.len(),
    ensures
        ({
            let sections = sections_of(body, headings);
            let skip = preamble_of(body, headings).len() as int;
            dense(join(piece_texts(config, sections, fragments, skip + m), blank_line())) == dense(
                byte_slice(body, 0, end_before(body, headings, m)),
            )
        }),
    decreases m,
{
    let bytes = encode_utf8(body);
    let sections = sections_of(body, headings);
    let skip = preamble_of(body, headings).len() as int;
    if m > 0 {
        lemma_dense_cover(body, config, headings, fragments, m - 1);
        lemma_dense_section(body, config, headings, fragments, skip + m - 1);
        assert(sections[skip + m - 1] == section_of(body, headings, m - 1));
        lemma_dense_body(body, headings, m - 1);
    } else {
        let last = preamble_end(headings, line_count(bytes));
        sections_tile(headings, line_count(bytes));
        lemma_line_starts(bytes);
        let none = piece_texts(config, sections, fragments, 0);
        if last > 0 {
            let text = section_at(body, 1, last, None).text;
            assert(text == byte_slice(body, 0, end_before(body, headings, 0)));
            if skip > 0 {
                lemma_dense_section(body, config, headings, fragments, 0);
                assert(dense(join(none, blank_line())) + dense(text) =~= dense(text));
            } else {
                lemma_dense_trim(text);
            }
        } else {
            assert(bytes.subrange(0, 0) =~= encode_utf8(seq![]));
            encode_utf8_decode_utf8(seq![]);
        }
    }
}

/// No text is lost, doubled or moved. With blank lines between them, the raw
/// chunks read like the sections and fragments that they were made of. Whitespace
/// aside, they read like the body.
pub proof fn chunks_keep_the_text(
    body: Seq<char>,
    config: ChunkingConfig,
    headings: Seq<HeadingView>,
    fragments: Seq<Seq<FragmentView>>,
)
    requires
        consistent(body, config, headings, fragments),
    ensures
        join(texts(raw_chunks(body, headings, config, fragments)), blank_line()) == join(
            piece_texts(
                config,
                sections_of(body, headings),
                fragments,
                sections_of(body, headings).len() as int,
            ),
            blank_line(),
        ),
        dense(join(texts(raw_chunks(body, headings, config, fragments)), blank_line())) == dense(
            body,
        ),
{
    let bytes = encode_utf8(body);
    let sections = sections_of(body, headings);
    lemma_merge_all(body, headings, config, fragments, sections.len() as int);
    assert(sections.take(sections.len() as int) =~= sections);
    lemma_dense_cover(body, config, headings, fragments, headings.len() as int);
    sections_tile(headings, line_count(bytes));
    lemma_whole_slice(body);
    assert(end_before(body, headings, headings.len() as int) == bytes.len());
}

/// The text of a chunk ends with the text that it was made of. It is that text,
/// if there is neither a description nor a heading path to put before it.
pub proof fn chunk_text_ends_with_its_content(
    body: Seq<char>,
    description: Option<Seq<char>>,
    config: ChunkingConfig,
    headings: Seq<HeadingView>,
    fragments: Seq<Seq<FragmentView>>,
    i: int,
)
    requires
        0 <= i < raw_chunks(body, headings, config, fragments).len(),
    ensures
        ({
            let raw = raw_chunks(body, headings, config, fragments)[i];
            let chunk = chunks_of(body, description, config, headings, fragments)[i];
            let described = config.prepend_description && description is Some;
            let nested = config.prepend_heading_path && path_prefix(
                path_of(headings, raw.breadcrumb),
                prefix_chars(config),
            ) is Some;
            &&& raw.text.is_suffix_of(chunk.text)
            &&& !described && !nested ==> chunk.text == raw.text
        }),
{
}

/// The heading path before a chunk is the start of the path of its section.
pub proof fn breadcrumb_leads_to_the_section(
    body: Seq<char>,
    config: ChunkingConfig,
    headings: Seq<HeadingView>,
    fragments: Seq<Seq<FragmentView>>,
    i: int,
)
    requires
        consistent(body, config, headings, fragments),
        0 <= i < raw_chunks(body, headings, config, fragments).len(),
    ensures
        path_of(headings, raw_chunks(body, headings, config, fragments)[i].breadcrumb).is_prefix_of(
            section_path(headings, raw_chunks(body, headings, config, fragments)[i].section),
        ),
{
    chunks_lie_in_their_sections(body, None, config, headings, fragments);
    let raw = raw_chunks(body, headings, config, fragments)[i];
    if let Some(x) = raw.breadcrumb {
        lemma_path_prefix(headings, x, Some(raw.section->Heading_0 as int));
    }
}

/// `ys` is `xs` and chunks of `section` behind them. Before the first one, which
/// starts with the heading, the path down to the parent is put, before the others
/// that down to the heading.
spec fn continues(
    headings: Seq<HeadingView>,
    section: SectionView,
    xs: Seq<RawView>,
    ys: Seq<RawView>,
) -> bool {
    &&& xs.len() <= ys.len()
    &&& forall|k: int| 0 <= k < xs.len() ==> #[trigger] ys[k] == xs[k]
    &&& forall|k: int|
        xs.len() <= k < ys.len() ==> (#[trigger] ys[k]).section == id_of(section)
            && ys[k].breadcrumb == (if k == xs.len() {
            leading(headings, section)
        } else {
            section.heading
        })
}

/// What the parent of a heading, or the heading, has in common with the heading.
proof fn lemma_common_trail(headings: Seq<HeadingView>, count: nat, section: SectionView)
    requires
        well_placed(headings, count),
        in_tree(section.heading, headings.len()),
    ensures
        common(headings, leading(headings, section), section.heading) == leading(headings, section),
        common(headings, section.heading, section.heading) == section.heading,
{
    if let Some(h) = section.heading {
        lemma_parent(headings, count, h);
        assert(above(headings, h, Some(h)));
        if let Some(p) = headings[h].parent {
            assert(above(headings, p, Some(p)));
            assert(above(headings, p, Some(h)));
        }
    }
}

proof fn lemma_split_trail(
    headings: Seq<HeadingView>,
    count: nat,
    section: SectionView,
    limit: nat,
    xs: Seq<RawView>,
    pieces: Seq<RawView>,
)
    requires
        well_placed(headings, count),
        in_tree(section.heading, headings.len()),
        forall|k: int|
            0 <= k < pieces.len() ==> (#[trigger] pieces[k]).section == id_of(section)
                && pieces[k].breadcrumb == (if k == 0 {
                leading(headings, section)
            } else {
                section.heading
            }),
    ensures
        continues(headings, section, xs, total(split_all(headings, limit, xs, pieces))),
        split_all(headings, limit, xs, pieces).chunks.len() >= xs.len(),
        pieces.len() > 0 ==> total(split_all(headings, limit, xs, pieces)).len() > xs.len(),
    decreases pieces.len(),
{
    if pieces.len() > 0 {
        let fewer = pieces.drop_last();
        let piece = pieces.last();
        assert forall|k: int| 0 <= k < fewer.len() implies #[trigger] fewer[k] == pieces[k] by {}
        lemma_split_trail(headings, count, section, limit, xs, fewer);
        lemma_common_trail(headings, count, section);
        let state = split_all(headings, limit, xs, fewer);
        let after = split_step(headings, limit, state, piece);
        assert(piece == pieces[pieces.len() - 1]);
        if let Some(pending) = state.pending {
            let m = state.chunks.len() as int;
            assert(total(state)[m] == pending);
            assert forall|k: int| 0 <= k < m implies #[trigger] total(after)[k]
                == total(state)[k] by {}
        } else {
            assert forall|k: int| 0 <= k < state.chunks.len() implies #[trigger] total(after)[k]
                == total(state)[k] by {}
        }
    }
}

/// Whether raw chunk `k` is the first one of its section.
pub open spec fn opens_its_section(raws: Seq<RawView>, k: int) -> bool {
    forall|j: int| 0 <= j < k ==> (#[trigger] raws[j]).section != raws[k].section
}

/// Whether the heading path before raw chunk `k` leads to what its text starts
/// under: to the parent of the section's heading if the text starts with that
/// heading, and to the heading if it starts behind it. The preamble has none.
pub open spec fn trails_its_section(
    headings: Seq<HeadingView>,
    raws: Seq<RawView>,
    k: int,
) -> bool {
    match raws[k].section {
        SectionId::Heading(h) => raws[k].breadcrumb == (if opens_its_section(raws, k) {
            headings[h as int].parent
        } else {
            Some(h as int)
        }),
        _ => raws[k].breadcrumb is None,
    }
}

proof fn lemma_continues(
    headings: Seq<HeadingView>,
    section: SectionView,
    xs: Seq<RawView>,
    ys: Seq<RawView>,
)
    requires
        headings.len() <= usize::MAX,
        in_tree(section.heading, headings.len()),
        continues(headings, section, xs, ys),
        forall|k: int|
            0 <= k < xs.len() ==> (#[trigger] xs[k]).section != id_of(section)
                && trails_its_section(headings, xs, k),
    ensures
        forall|k: int| 0 <= k < ys.len() ==> #[trigger] trails_its_section(headings, ys, k),
{
    assert forall|k: int| 0 <= k < ys.len() implies #[trigger] trails_its_section(
        headings,
        ys,
        k,
    ) by {
        if k < xs.len() {
            assert(xs[k].section != id_of(section));
            assert(ys[k] == xs[k]);
            assert forall|j: int| 0 <= j < k implies #[trigger] ys[j] == xs[j] by {}
            if opens_its_section(ys, k) {
                assert forall|j: int| 0 <= j < k implies (#[trigger] xs[j]).section
                    != xs[k].section by {
                    assert(ys[j] == xs[j]);
                }
            }
        } else if k == xs.len() {
            assert forall|j: int| 0 <= j < k implies (#[trigger] ys[j]).section
                != ys[k].section by {
                assert(xs[j].section != id_of(section));
            }
        } else {
            assert(ys[xs.len() as int].section == ys[k].section);
        }
    }
}

pub proof fn lemma_trails(
    body: Seq<char>,
    config: ChunkingConfig,
    headings: Seq<HeadingView>,
    fragments: Seq<Seq<FragmentView>>,
    n: int,
)
    requires
        consistent(body, config, headings, fragments),
        config.heading_metadata,
        0 <= n <= sections_of(body, headings).len(),
    ensures
        ({
            let sections = sections_of(body, headings);
            let raws = flushed(
                merge_all(encode_utf8(body), headings, config, sections.take(n), fragments),
            );
            &&& forall|k: int|
                0 <= k < raws.len() ==> #[trigger] trails_its_section(headings, raws, k)
            &&& forall|k: int, j: int|
                0 <= k < raws.len() && n <= j < sections.len() ==> (#[trigger] raws[k]).section
                    != id_of(#[trigger] sections[j])
        }),
    decreases n,
{
    let bytes = encode_utf8(body);
    let count = line_count(bytes);
    let sections = sections_of(body, headings);
    if n > 0 {
        let i = n - 1;
        let section = sections[i];
        lemma_trails(body, config, headings, fragments, i);
        lemma_sections(body, headings, i);
        assert(sections.take(n).drop_last() =~= sections.take(i));
        assert(sections.take(n).last() == section);
        let before = merge_all(bytes, headings, config, sections.take(i), fragments);
        let after = merge_all(bytes, headings, config, sections.take(n), fragments);
        let xs = flushed(before);
        let ys = flushed(after);
        if oversized(config, section) {
            let limit = split_limit(config);
            let parts = fragment_pieces(bytes, headings, section, fragments[i]);
            lemma_split_trail(headings, count, section, limit, xs, parts);
            lemma_split_prefix(headings, limit, xs, parts, id_of(section));
            lemma_common_trail(headings, count, section);
            let state = split_all(headings, limit, xs, parts);
            let all = total(state);
            if ys != all {
                let m = state.chunks.len() as int;
                let tail = state.pending->Some_0;
                assert(all[m] == tail);
                assert(all[m - 1] == state.chunks.last());
                assert(m - 1 >= xs.len()) by {
                    if m - 1 < xs.len() {
                        assert(all[m - 1] == xs[m - 1]);
                    }
                }
                assert forall|k: int| 0 <= k < m - 1 implies #[trigger] ys[k] == all[k] by {}
            }
        } else {
            assert(ys =~= xs.push(whole(headings, section)));
        }
        assert(continues(headings, section, xs, ys));
        lemma_continues(headings, section, xs, ys);
        assert forall|k: int, j: int| 0 <= k < ys.len() && n <= j < sections.len() implies (
        #[trigger] ys[k]).section != id_of(#[trigger] sections[j]) by {
            lemma_section_ids(body, headings, i, j);
            if k < xs.len() {
                assert(ys[k] == xs[k]);
            }
        }
    } else {
        assert(sections.take(0) =~= seq![]);
    }
}

/// With `heading_metadata` on, the first chunk of a section, which starts with its
/// heading, has the path down to the heading's parent put before it, and every
/// later chunk of the section the path down to the heading.
pub proof fn breadcrumb_leads_to_where_the_text_starts(
    body: Seq<char>,
    config: ChunkingConfig,
    headings: Seq<HeadingView>,
    fragments: Seq<Seq<FragmentView>>,
    k: int,
)
    requires
        consistent(body, config, headings, fragments),
        config.heading_metadata,
        0 <= k < raw_chunks(body, headings, config, fragments).len(),
    ensures
        trails_its_section(headings, raw_chunks(body, headings, config, fragments), k),
{
    let sections = sections_of(body, headings);
    lemma_trails(body, config, headings, fragments, sections.len() as int);
    assert(sections.take(sections.len() as int) =~= sections);
}

proof fn lemma_path_prefix(headings: Seq<HeadingView>, x: int, node: Option<int>)
    requires
        above(headings, x, node),
    ensures
        path_of(headings, Some(x)).is_prefix_of(path_of(headings, node)),
    decreases
            match node {
                Some(i) => i + 1,
                None => 0,
            },
{
    let i = node->Some_0;
    if i != x {
        let p = parent_of(headings, i);
        lemma_path_prefix(headings, x, p);
        assert(path_of(headings, node) == path_of(headings, p).push(headings[i].text));
    }
}

/// A heading path before a chunk is never empty, and together with the blank
/// line behind it it takes no more characters than were kept free for it.
pub proof fn breadcrumb_keeps_to_its_budget(
    headings: Seq<HeadingView>,
    count: nat,
    config: ChunkingConfig,
    node: Option<int>,
)
    requires
        well_placed(headings, count),
        in_tree(node, headings.len()),
    ensures
        path_prefix(path_of(headings, node), prefix_chars(config)) matches Some(prefix) ==> 0
            < prefix.len() && prefix.len() + blank_line().len() <= reserve(config),
{
    lemma_path_texts(headings, count, node);
    let path = path_of(headings, node);
    if path.len() > 0 {
        assert(path[path.len() - 1].len() > 0);
    }
}

proof fn lemma_path_texts(headings: Seq<HeadingView>, count: nat, node: Option<int>)
    requires
        well_placed(headings, count),
        in_tree(node, headings.len()),
    ensures
        forall|k: int|
            0 <= k < path_of(headings, node).len() ==> (#[trigger] path_of(headings, node)[k]).len()
                > 0,
    decreases
            match node {
                Some(i) => i + 1,
                None => 0,
            },
{
    if let Some(i) = node {
        let above = path_of(headings, parent_of(headings, i));
        lemma_path_texts(headings, count, parent_of(headings, i));
        assert(headings[i].text.len() > 0) by {
            reveal(well_placed);
        }
        assert forall|k: int| 0 <= k < path_of(headings, node).len() implies (
        #[trigger] path_of(headings, node)[k]).len() > 0 by {
            if k < above.len() {
                assert(path_of(headings, node)[k] == above[k]);
            }
        }
    }
}

/// With `heading_metadata` on, the target size makes no difference.
pub proof fn target_is_unused_when_isolated(
    body: Seq<char>,
    description: Option<Seq<char>>,
    config: ChunkingConfig,
    other: ChunkingConfig,
    headings: Seq<HeadingView>,
    fragments: Seq<Seq<FragmentView>>,
)
    requires
        config.heading_metadata,
        other == (ChunkingConfig { target_chunk_size: other.target_chunk_size, ..config }),
    ensures
        chunks_of(body, description, config, headings, fragments) == chunks_of(
            body,
            description,
            other,
            headings,
            fragments,
        ),
{
    lemma_target_unused(
        encode_utf8(body),
        config,
        other,
        headings,
        sections_of(body, headings),
        fragments,
    );
    assert(chunks_of(body, description, config, headings, fragments) =~= chunks_of(
        body,
        description,
        other,
        headings,
        fragments,
    ));
}

proof fn lemma_target_unused(
    bytes: Seq<u8>,
    config: ChunkingConfig,
    other: ChunkingConfig,
    headings: Seq<HeadingView>,
    sections: Seq<SectionView>,
    fragments: Seq<Seq<FragmentView>>,
)
    requires
        config.heading_metadata,
        other == (ChunkingConfig { target_chunk_size: other.target_chunk_size, ..config }),
    ensures
        merge_all(bytes, headings, config, sections, fragments) == merge_all(
            bytes,
            headings,
            other,
            sections,
            fragments,
        ),
    decreases sections.len(),
{
    if sections.len() > 0 {
        lemma_target_unused(bytes, config, other, headings, sections.drop_last(), fragments);
    }
}

/// Splitting a section leaves the chunks before it alone.
proof fn lemma_split_prefix(
    headings: Seq<HeadingView>,
    limit: nat,
    chunks: Seq<RawView>,
    pieces: Seq<RawView>,
    id: SectionId,
)
    requires
        forall|k: int| 0 <= k < pieces.len() ==> (#[trigger] pieces[k]).section == id,
    ensures
        chunks.is_prefix_of(split_all(headings, limit, chunks, pieces).chunks),
        split_all(headings, limit, chunks, pieces).pending matches Some(p) ==> p.section == id,
    decreases pieces.len(),
{
    if pieces.len() > 0 {
        let fewer = pieces.drop_last();
        assert forall|k: int| 0 <= k < fewer.len() implies (#[trigger] fewer[k]).section == id by {
            assert(pieces[k].section == id);
        }
        lemma_split_prefix(headings, limit, chunks, fewer, id);
        assert(pieces[pieces.len() - 1].section == id);
        lemma_split_step(
            headings,
            limit,
            split_all(headings, limit, chunks, fewer),
            pieces.last(),
        );
    }
}

proof fn lemma_isolated(
    body: Seq<char>,
    headings: Seq<HeadingView>,
    config: ChunkingConfig,
    fragments: Seq<Seq<FragmentView>>,
    i: int,
    n: int,
)
    requires
        consistent(body, config, headings, fragments),
        config.heading_metadata,
        0 <= i < n <= sections_of(body, headings).len(),
        !oversized(config, sections_of(body, headings)[i]),
    ensures
        flushed(
            merge_all(
                encode_utf8(body),
                headings,
                config,
                sections_of(body, headings).take(n),
                fragments,
            ),
        ).contains(whole(headings, sections_of(body, headings)[i])),
    decreases n,
{
    let bytes = encode_utf8(body);
    let sections = sections_of(body, headings);
    let wanted = whole(headings, sections[i]);
    let before = merge_all(bytes, headings, config, sections.take(n - 1), fragments);
    let after = merge_all(bytes, headings, config, sections.take(n), fragments);
    let section = sections[n - 1];
    assert(sections.take(n).drop_last() =~= sections.take(n - 1));
    assert(sections.take(n).last() == section);
    let xs = flushed(before);
    let ys = flushed(after);
    if n - 1 > i {
        lemma_isolated(body, headings, config, fragments, i, n - 1);
        let m = choose|m: int| 0 <= m < xs.len() && xs[m] == wanted;
        if oversized(config, section) {
            let limit = split_limit(config);
            let parts = fragment_pieces(bytes, headings, section, fragments[n - 1]);
            lemma_split_prefix(headings, limit, xs, parts, id_of(section));
            lemma_section_ids(body, headings, i, n - 1);
            let state = split_all(headings, limit, xs, parts);
            assert(state.chunks[m] == wanted);
            assert(ys[m] == wanted);
        } else {
            assert(ys[m] == wanted);
        }
    } else {
        assert(ys.last() == wanted);
        assert(ys[ys.len() - 1] == wanted);
    }
}

/// Different sections are attributed differently.
proof fn lemma_section_ids(body: Seq<char>, headings: Seq<HeadingView>, i: int, j: int)
    requires
        headings.len() <= usize::MAX,
        0 <= i < j < sections_of(body, headings).len(),
    ensures
        id_of(sections_of(body, headings)[i]) != id_of(sections_of(body, headings)[j]),
{
    let sections = sections_of(body, headings);
    let skip = preamble_of(body, headings).len() as int;
    assert(sections[j] == section_of(body, headings, j - skip));
    if i >= skip {
        assert(sections[i] == section_of(body, headings, i - skip));
    }
}

/// With `heading_metadata` on, a section that is not split is a chunk of its own,
/// even if it is a heading without text below it.
pub proof fn isolated_section_is_its_own_chunk(
    body: Seq<char>,
    config: ChunkingConfig,
    headings: Seq<HeadingView>,
    fragments: Seq<Seq<FragmentView>>,
    i: int,
)
    requires
        consistent(body, config, headings, fragments),
        config.heading_metadata,
        0 <= i < sections_of(body, headings).len(),
        !oversized(config, sections_of(body, headings)[i]),
    ensures
        raw_chunks(body, headings, config, fragments).contains(
            whole(headings, sections_of(body, headings)[i]),
        ),
{
    let sections = sections_of(body, headings);
    lemma_isolated(body, headings, config, fragments, i, sections.len() as int);
    assert(sections.take(sections.len() as int) =~= sections);
}

} // verus!
