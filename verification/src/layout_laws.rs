//! How the chunks of a document are laid out in its body: which pieces of it are put
//! together.
use vstd::prelude::*;
use vstd::utf8::*;

use crate::chunk::{
    appended, blank_line, chunks_of, finished, fits, flushed, fragment_piece, fragment_pieces,
    fragments_of, headings_of, id_of, joins, markdown_fragments, merge_all, oversized, path_budget,
    path_prefix, pieces_of, placed_piece, preamble_of, raw_chunks, raw_in, section_of, sections_of,
    size, split_all, split_done, split_limit, whole, ChunkView, FragmentView, RawView, SectionView,
    SplitView, MIN_MERGE_SIZE,
};
use crate::chunk_laws::{chunks_lie_in_their_sections, consistent, lemma_sections, lemma_trails};
use crate::config::ChunkingConfig;
use crate::cover_laws::{
    blank, cover_the_body, covered, covers_up_to, cut_piece, is_piece, is_section, kept_free,
    largest, lemma_blank_part, lemma_cover, lemma_firsts, lemma_fragment, lemma_gaps,
    lemma_line_feed, lemma_section_at, pieces_upto, section_pieces, stands_at, wanted, weight,
    PieceView,
};
use crate::heading::{
    above, common, common_ancestor_is_deepest, lemma_above_transitive, outline, path_of, scanned,
    sections_tile, well_placed, HeadingView,
};
use crate::lines::{
    lemma_line_at, lemma_line_at_monotone, lemma_line_starts, lemma_range, line_at, line_count,
    line_starts, lines_end_at_line_feeds, range_end, range_start,
    ranges_hold_the_bytes_of_their_lines,
};
use crate::markup::{markdown_events, PARSER_OPTIONS};
use crate::section::{lies_under, merged_lies_where_both_lie, SectionId};
use crate::size_laws::{lemma_trim_start_concat, lemma_trim_start_kept};
use crate::text::{
    byte_len, byte_slice, join, lemma_byte_len_bounds, lemma_byte_len_push, lemma_byte_slice,
    lemma_encode_concat, lemma_encode_injective, lemma_encode_one, lemma_join_concat, lemma_slices,
    trim, trim_end, trim_start, whitespace,
};

verus! {

/// The texts of the pieces of `group`, with blank lines between them.
pub open spec fn content(body: Seq<char>, group: Seq<PieceView>) -> Seq<char> {
    join(group.map_values(|p: PieceView| stands_at(body, p.start, p.end)), seq!['\n', '\n'])
}

/// Whether the pieces of `group` from number `from` on are parts of one section,
/// which were put together because what stood before each of them had less than
/// 200 bytes.
pub open spec fn is_run(body: Seq<char>, group: Seq<PieceView>, from: int) -> bool {
    &&& 0 <= from < group.len()
    &&& forall|i: int|
        from <= i < group.len() ==> (#[trigger] group[i]).split && group[i].heading
            == group.last().heading
    &&& forall|n: int|
        from < n < group.len() ==> weight(content(body, #[trigger] group.subrange(from, n))) < 200
}

/// Whether the pieces of `group` may be one chunk. They are sections, which have no
/// more than the wanted size if there are several; or parts of one section, put
/// together because each start of them was too small to stand alone; or such parts
/// behind what is a chunk already, if they are too small to stand alone and both
/// are not too large together. With `heading_metadata` on, all are of one section.
#[verifier::opaque]
pub open spec fn well_grouped(
    body: Seq<char>,
    config: ChunkingConfig,
    group: Seq<PieceView>,
) -> bool
    decreases group.len(),
{
    if group.len() == 0 {
        false
    } else if !group.last().split {
        &&& forall|i: int| 0 <= i < group.len() ==> !(#[trigger] group[i]).split
        &&& group.len() > 1 ==> !config.heading_metadata && weight(content(body, group)) <= wanted(
            config,
        )
    } else {
        exists|from: int|
            0 <= from < group.len() && #[trigger] is_run(body, group, from) && (from > 0 ==> {
                &&& weight(content(body, group.skip(from))) < 200
                &&& weight(content(body, group)) <= largest(config)
                &&& config.heading_metadata ==> group[from - 1].heading == group.last().heading
                &&& well_grouped(body, config, group.take(from))
            })
    }
}

/// Whether the chunks of `a` and `b`, which follow each other, are two because they
/// have to be:
///
/// - a section starts a new chunk only if it would make the chunk before it larger
///   than wanted, or sections are kept apart;
/// - a part of a section starts a new chunk only behind at least 200 bytes of it;
/// - parts of a section with less than 200 bytes are a chunk only if they would
///   make the chunk before them too large, or are kept apart from it.
#[verifier::opaque]
pub open spec fn apart(
    body: Seq<char>,
    config: ChunkingConfig,
    a: Seq<PieceView>,
    b: Seq<PieceView>,
) -> bool {
    &&& !config.heading_metadata && !a.last().split && !b[0].split ==> weight(
        content(body, a) + seq!['\n', '\n'] + stands_at(body, b[0].start, b[0].end),
    ) > wanted(config)
    &&& a.last().split && b[0].split && a.last().heading == b[0].heading ==> weight(
        content(body, a),
    ) >= 200
    &&& (forall|i: int|
        0 <= i < b.len() ==> (#[trigger] b[i]).split && b[i].heading == b[0].heading) && weight(content(body, b)) < 200 && (!config.heading_metadata || a.last().heading
        == b[0].heading) ==> weight(content(body, a) + seq!['\n', '\n'] + content(body, b))
        > largest(config)
}

/// Whether all of `groups` may be chunks, and have to be.
pub open spec fn well_cut(
    body: Seq<char>,
    config: ChunkingConfig,
    groups: Seq<Seq<PieceView>>,
) -> bool {
    &&& forall|k: int| 0 <= k < groups.len() ==> well_grouped(body, config, #[trigger] groups[k])
    &&& forall|j: int, k: int|
        0 <= j && k == j + 1 && k < groups.len() ==> apart(
            body,
            config,
            #[trigger] groups[j],
            #[trigger] groups[k],
        )
}

/// Whether `id` is the narrowest section that all of `group` lies in: it lies in
/// the subtree of a heading exactly if all pieces do, and is the preamble exactly
/// if all pieces are.
pub open spec fn is_section_of(
    headings: Seq<HeadingView>,
    group: Seq<PieceView>,
    id: SectionId,
) -> bool {
    &&& id is Preamble <==> forall|i: int|
        0 <= i < group.len() ==> (#[trigger] group[i]).heading is None
    &&& forall|x: int| #[trigger]
        lies_under(headings, x, id) <==> forall|i: int|
            0 <= i < group.len() ==> above(headings, x, (#[trigger] group[i]).heading)
}

/// The heading that `piece` stands under: that of its section, or, if it starts
/// with that, the parent.
pub open spec fn stands_under(headings: Seq<HeadingView>, piece: PieceView) -> Option<int> {
    match piece.heading {
        Some(h) => if piece.first {
            headings[h].parent
        } else {
            Some(h)
        },
        None => None,
    }
}

/// Whether `crumb` is the deepest heading that all of `group` stand under.
pub open spec fn is_crumb_of(
    headings: Seq<HeadingView>,
    group: Seq<PieceView>,
    crumb: Option<int>,
) -> bool {
    forall|x: int| #[trigger]
        above(headings, x, crumb) <==> forall|i: int|
            0 <= i < group.len() ==> above(headings, x, stands_under(headings, #[trigger] group[i]))
}

/// Whether the raw chunk `raw` is what `group` makes.
#[verifier::opaque]
spec fn holds(
    body: Seq<char>,
    headings: Seq<HeadingView>,
    raw: RawView,
    group: Seq<PieceView>,
) -> bool {
    let bytes = encode_utf8(body);
    &&& group.len() > 0
    &&& raw.text == content(body, group)
    &&& raw.line_start == line_at(bytes, group[0].start)
    &&& raw.line_end == line_at(bytes, group.last().end)
    &&& is_section_of(headings, group, raw.section)
    &&& is_crumb_of(headings, group, raw.breadcrumb)
}

proof fn lemma_content_concat(body: Seq<char>, a: Seq<PieceView>, b: Seq<PieceView>)
    requires
        a.len() > 0,
        b.len() > 0,
    ensures
        content(body, a + b) == content(body, a) + seq!['\n', '\n'] + content(body, b),
{
    let f = |p: PieceView| stands_at(body, p.start, p.end);
    assert((a + b).map_values(f) =~= a.map_values(f) + b.map_values(f));
    lemma_join_concat(a.map_values(f), b.map_values(f), seq!['\n', '\n']);
}

proof fn lemma_content_one(body: Seq<char>, p: PieceView)
    ensures
        content(body, seq![p]) == stands_at(body, p.start, p.end),
{
    let f = |p: PieceView| stands_at(body, p.start, p.end);
    assert(seq![p].map_values(f) =~= seq![f(p)]);
}

proof fn lemma_common_above(headings: Seq<HeadingView>, a: Option<int>, b: Option<int>)
    ensures
        forall|x: int| #[trigger]
            above(headings, x, common(headings, a, b)) <==> above(headings, x, a) && above(
                headings,
                x,
                b,
            ),
{
    common_ancestor_is_deepest(headings, a, b);
    let c = common(headings, a, b);
    assert forall|x: int| #[trigger] above(headings, x, c) implies above(headings, x, a) && above(
        headings,
        x,
        b,
    ) by {
        if let Some(m) = c {
            lemma_above_transitive(headings, x, m, a);
            lemma_above_transitive(headings, x, m, b);
        }
    }
}

proof fn lemma_holds(
    body: Seq<char>,
    headings: Seq<HeadingView>,
    raw: RawView,
    group: Seq<PieceView>,
)
    requires
        holds(body, headings, raw, group),
    ensures
        group.len() > 0,
        raw.text == content(body, group),
{
    reveal(holds);
}

/// What two raw chunks make is what their groups make.
proof fn lemma_holds_append(
    body: Seq<char>,
    headings: Seq<HeadingView>,
    a: RawView,
    ga: Seq<PieceView>,
    b: RawView,
    gb: Seq<PieceView>,
)
    requires
        holds(body, headings, a, ga),
        holds(body, headings, b, gb),
    ensures
        holds(body, headings, appended(headings, a, b), ga + gb),
        ga.len() > 0,
        gb.len() > 0,
        a.text == content(body, ga),
        b.text == content(body, gb),
{
    reveal(holds);
    let c = appended(headings, a, b);
    let g = ga + gb;
    lemma_content_concat(body, ga, gb);
    assert(blank_line() =~= seq!['\n', '\n']);
    merged_lies_where_both_lie(headings, a.section, b.section);
    lemma_common_above(headings, a.breadcrumb, b.breadcrumb);
    assert forall|i: int| 0 <= i < ga.len() implies #[trigger] g[i] == ga[i] by {}
    assert forall|i: int| 0 <= i < gb.len() implies #[trigger] gb[i] == g[i + ga.len()] by {}
    assert(c.section is Preamble <==> forall|i: int|
        0 <= i < g.len() ==> (#[trigger] g[i]).heading is None) by {
        if c.section is Preamble {
            assert forall|i: int| 0 <= i < g.len() implies (#[trigger] g[i]).heading is None by {
                if i >= ga.len() {
                    assert(gb[i - ga.len()].heading is None);
                }
            }
        } else {
            if forall|i: int| 0 <= i < g.len() ==> (#[trigger] g[i]).heading is None {
                assert forall|i: int| 0 <= i < ga.len() implies (
                #[trigger] ga[i]).heading is None by {
                    assert(g[i] == ga[i]);
                }
                assert forall|i: int| 0 <= i < gb.len() implies (
                #[trigger] gb[i]).heading is None by {
                    assert(g[i + ga.len()] == gb[i]);
                }
            }
        }
    }
    assert forall|x: int| #[trigger] lies_under(headings, x, c.section) <==> forall|i: int|
        0 <= i < g.len() ==> above(headings, x, (#[trigger] g[i]).heading) by {
        if lies_under(headings, x, c.section) {
            assert(lies_under(headings, x, a.section) && lies_under(headings, x, b.section));
            assert forall|i: int| 0 <= i < g.len() implies above(
                headings,
                x,
                (#[trigger] g[i]).heading,
            ) by {
                if i >= ga.len() {
                    assert(above(headings, x, gb[i - ga.len()].heading));
                }
            }
        } else if forall|i: int|
            0 <= i < g.len() ==> above(headings, x, (#[trigger] g[i]).heading) {
            assert forall|i: int| 0 <= i < ga.len() implies above(
                headings,
                x,
                (#[trigger] ga[i]).heading,
            ) by {
                assert(g[i] == ga[i]);
            }
            assert forall|i: int| 0 <= i < gb.len() implies above(
                headings,
                x,
                (#[trigger] gb[i]).heading,
            ) by {
                assert(g[i + ga.len()] == gb[i]);
            }
            assert(lies_under(headings, x, a.section) && lies_under(headings, x, b.section));
        }
    }
    assert forall|x: int| #[trigger] above(headings, x, c.breadcrumb) <==> forall|i: int|
        0 <= i < g.len() ==> above(headings, x, stands_under(headings, #[trigger] g[i])) by {
        if above(headings, x, c.breadcrumb) {
            assert(above(headings, x, a.breadcrumb) && above(headings, x, b.breadcrumb));
            assert forall|i: int| 0 <= i < g.len() implies above(
                headings,
                x,
                stands_under(headings, #[trigger] g[i]),
            ) by {
                if i >= ga.len() {
                    assert(above(headings, x, stands_under(headings, gb[i - ga.len()])));
                }
            }
        } else if forall|i: int|
            0 <= i < g.len() ==> above(headings, x, stands_under(headings, #[trigger] g[i])) {
            assert forall|i: int| 0 <= i < ga.len() implies above(
                headings,
                x,
                stands_under(headings, #[trigger] ga[i]),
            ) by {
                assert(g[i] == ga[i]);
            }
            assert forall|i: int| 0 <= i < gb.len() implies above(
                headings,
                x,
                stands_under(headings, #[trigger] gb[i]),
            ) by {
                assert(g[i + ga.len()] == gb[i]);
            }
            assert(above(headings, x, a.breadcrumb) && above(headings, x, b.breadcrumb));
        }
    }
}

/// A raw chunk of one piece.
proof fn lemma_holds_one(
    body: Seq<char>,
    headings: Seq<HeadingView>,
    section: SectionView,
    raw: RawView,
    p: PieceView,
)
    requires
        headings.len() <= usize::MAX,
        section.heading matches Some(h) ==> 0 <= h < headings.len(),
        p.heading == section.heading,
        raw.text == stands_at(body, p.start, p.end),
        raw.line_start == line_at(encode_utf8(body), p.start),
        raw.line_end == line_at(encode_utf8(body), p.end),
        raw.section == id_of(section),
        raw.breadcrumb == stands_under(headings, p),
    ensures
        holds(body, headings, raw, seq![p]),
{
    reveal(holds);
    let g = seq![p];
    lemma_content_one(body, p);
    assert(g[0] == p);
    assert(raw.section is Preamble <==> g[0].heading is None);
    assert forall|x: int| #[trigger] lies_under(headings, x, raw.section) <==> forall|i: int|
        0 <= i < g.len() ==> above(headings, x, (#[trigger] g[i]).heading) by {
        if forall|i: int| 0 <= i < g.len() ==> above(headings, x, (#[trigger] g[i]).heading) {
            assert(above(headings, x, g[0].heading));
        }
    }
    assert forall|x: int| #[trigger] above(headings, x, raw.breadcrumb) <==> forall|i: int|
        0 <= i < g.len() ==> above(headings, x, stands_under(headings, #[trigger] g[i])) by {
        if forall|i: int| 0 <= i < g.len() ==> above(
            headings,
            x,
            stands_under(headings, #[trigger] g[i]),
        ) {
            assert(above(headings, x, stands_under(headings, g[0])));
        }
    }
}

/// All of a section as one raw chunk.
proof fn lemma_holds_whole(
    body: Seq<char>,
    config: ChunkingConfig,
    headings: Seq<HeadingView>,
    fragments: Seq<FragmentView>,
    i: int,
)
    requires
        well_placed(headings, line_count(encode_utf8(body))),
        headings.len() <= usize::MAX,
        0 <= i < sections_of(body, headings).len(),
        !oversized(config, sections_of(body, headings)[i]),
    ensures
        holds(
            body,
            headings,
            whole(headings, sections_of(body, headings)[i]),
            section_pieces(config, sections_of(body, headings)[i], fragments),
        ),
{
    let section = sections_of(body, headings)[i];
    lemma_section_at(body, headings, i);
    lemma_sections(body, headings, i);
    let g = section_pieces(config, section, fragments);
    lemma_holds_one(body, headings, section, whole(headings, section), g[0]);
    assert(g =~= seq![g[0]]);
}

/// A fragment of a section as a raw chunk.
proof fn lemma_holds_fragment(
    body: Seq<char>,
    config: ChunkingConfig,
    headings: Seq<HeadingView>,
    fragments: Seq<FragmentView>,
    i: int,
    k: int,
)
    requires
        well_placed(headings, line_count(encode_utf8(body))),
        headings.len() <= usize::MAX,
        0 <= i < sections_of(body, headings).len(),
        pieces_of(sections_of(body, headings)[i].text, split_limit(config), fragments),
        0 <= k < fragments.len(),
    ensures
        holds(
            body,
            headings,
            fragment_piece(
                encode_utf8(body),
                headings,
                sections_of(body, headings)[i],
                k,
                fragments[k],
            ),
            seq![cut_piece(sections_of(body, headings)[i], k, fragments[k])],
        ),
{
    let bytes = encode_utf8(body);
    let section = sections_of(body, headings)[i];
    let limit = split_limit(config);
    let last = section.byte_start + byte_len(section.text);
    lemma_section_at(body, headings, i);
    lemma_sections(body, headings, i);
    lemma_fragment(body, limit, section, fragments, k);
    let p = cut_piece(section, k, fragments[k]);
    let raw = fragment_piece(bytes, headings, section, k, fragments[k]);
    assert(0 < fragments[k].1.len() && !whitespace(fragments[k].1.last()));
    lemma_byte_len_bounds(fragments[k].1);
    assert(bytes[p.end - 1] != 10) by {
        if bytes[p.end - 1] == 10 {
            lemma_line_feed(body, p.end - 1);
            lemma_slices(body, p.start, p.end - 1, p.end);
            lemma_byte_slice(body, p.end - 1, p.end);
            lemma_encode_one('\n');
            assert(10u32 & 0x7f == 10) by (bit_vector);
            assert(encode_scalar('\n' as u32) =~= bytes.subrange(p.end - 1, p.end));
            lemma_encode_injective(byte_slice(body, p.end - 1, p.end), seq!['\n']);
            assert(stands_at(body, p.start, p.end).last() == '\n');
        }
    }
    lines_end_at_line_feeds(bytes, p.end - 1);
    lemma_line_at_monotone(bytes, p.start, p.end - 1);
    lemma_line_at_monotone(bytes, p.end, last);
    lemma_holds_one(body, headings, section, raw, p);
}

/// What two texts make is no smaller than the first one.
proof fn lemma_weight_grows(a: Seq<char>, b: Seq<char>)
    requires
        trim(a).len() > 0,
        b.len() > 0,
        !whitespace(b.last()),
    ensures
        weight(a + seq!['\n', '\n'] + b) >= weight(a),
{
    let all = a + seq!['\n', '\n'] + b;
    let more = seq!['\n', '\n'] + b;
    let s = trim_start(a);
    assert(s.len() > 0);
    lemma_trim_start_concat(a, more);
    assert(all =~= a + more);
    assert(all.last() == b.last());
    lemma_trim_start_kept(all);
    lemma_encode_concat(s, more);
    lemma_trim_end_weight(s);
}

proof fn lemma_trim_end_weight(s: Seq<char>)
    ensures
        byte_len(trim_end(s)) <= byte_len(s),
    decreases s.len(),
{
    if s.len() > 0 && whitespace(s.last()) {
        lemma_trim_end_weight(s.drop_last());
        lemma_byte_len_push(s.drop_last(), s.last());
        assert(s.drop_last().push(s.last()) =~= s);
    }
}

/// Whether all of `raws` are what `groups` make, and the groups are well cut.
spec fn grouped(
    body: Seq<char>,
    config: ChunkingConfig,
    headings: Seq<HeadingView>,
    raws: Seq<RawView>,
    groups: Seq<Seq<PieceView>>,
) -> bool {
    &&& groups.len() == raws.len()
    &&& forall|k: int|
        0 <= k < groups.len() ==> holds(body, headings, raws[k], #[trigger] groups[k])
    &&& well_cut(body, config, groups)
}

/// One more group.
proof fn lemma_push_group(
    body: Seq<char>,
    config: ChunkingConfig,
    headings: Seq<HeadingView>,
    raws: Seq<RawView>,
    groups: Seq<Seq<PieceView>>,
    raw: RawView,
    group: Seq<PieceView>,
)
    requires
        grouped(body, config, headings, raws, groups),
        holds(body, headings, raw, group),
        well_grouped(body, config, group),
        groups.len() > 0 ==> apart(body, config, groups.last(), group),
    ensures
        grouped(body, config, headings, raws.push(raw), groups.push(group)),
        groups.push(group).flatten_alt() == groups.flatten_alt() + group,
{
    let all = groups.push(group);
    let rs = raws.push(raw);
    assert forall|k: int| 0 <= k < all.len() implies holds(body, headings, rs[k], #[trigger] all[k])
        && well_grouped(body, config, all[k]) by {
        if k < groups.len() {
            assert(all[k] == groups[k]);
            assert(rs[k] == raws[k]);
        }
    }
    assert forall|j: int, k: int| 0 <= j && k == j + 1 && k < all.len() implies apart(
        body,
        config,
        #[trigger] all[j],
        #[trigger] all[k],
    ) by {
        if k < groups.len() {
            assert(apart(body, config, groups[j], groups[k]));
        } else {
            assert(all[j] == groups.last());
        }
    }
    assert(all.drop_last() =~= groups);
}

/// The last group with more pieces.
proof fn lemma_grow_group(
    body: Seq<char>,
    config: ChunkingConfig,
    headings: Seq<HeadingView>,
    raws: Seq<RawView>,
    groups: Seq<Seq<PieceView>>,
    raw: RawView,
    more: Seq<PieceView>,
)
    requires
        grouped(body, config, headings, raws, groups),
        groups.len() > 0,
        holds(body, headings, raw, groups.last() + more),
        well_grouped(body, config, groups.last() + more),
        (forall|i: int|
            0 <= i < (groups.last() + more).len() ==> (#[trigger] (groups.last() + more)[i]).split
                && (groups.last() + more)[i].heading == (groups.last() + more)[0].heading)
            ==> weight(content(body, groups.last() + more)) >= 200,
    ensures
        grouped(
            body,
            config,
            headings,
            raws.drop_last().push(raw),
            groups.drop_last().push(groups.last() + more),
        ),
        groups.drop_last().push(groups.last() + more).flatten_alt() == groups.flatten_alt() + more,
{
    let rest = groups.drop_last();
    let last = groups.last();
    let fewer = raws.drop_last();
    lemma_holds(body, headings, raws[groups.len() - 1], groups[groups.len() - 1]);
    assert forall|k: int| 0 <= k < rest.len() implies holds(
        body,
        headings,
        fewer[k],
        #[trigger] rest[k],
    ) && well_grouped(body, config, rest[k]) by {
        assert(rest[k] == groups[k]);
        assert(fewer[k] == raws[k]);
    }
    assert forall|j: int, k: int| 0 <= j && k == j + 1 && k < rest.len() implies apart(
        body,
        config,
        #[trigger] rest[j],
        #[trigger] rest[k],
    ) by {
        assert(apart(body, config, groups[j], groups[k]));
    }
    assert(grouped(body, config, headings, fewer, rest));
    if rest.len() > 0 {
        assert(apart(body, config, groups[groups.len() - 2], groups[groups.len() - 1]));
        assert(rest.last() == groups[groups.len() - 2]);
        assert((last + more)[0] == last[0]);
        assert(apart(body, config, rest.last(), last + more)) by {
            reveal(apart);
        }
    }
    lemma_push_group(body, config, headings, fewer, rest, raw, last + more);
    assert(rest.flatten_alt() + (last + more) =~= (rest.flatten_alt() + last) + more);
}

/// Parts of one section may be a chunk.
proof fn lemma_run_grouped(body: Seq<char>, config: ChunkingConfig, group: Seq<PieceView>)
    requires
        is_run(body, group, 0),
    ensures
        well_grouped(body, config, group),
        group[0].split,
        group.last().split,
        group[0].heading == group.last().heading,
{
    reveal_with_fuel(well_grouped, 1);
    assert(group[group.len() - 1].split);
    assert(group[0].split);
}

/// Whether `group` is of `section` alone, put together from the start.
spec fn fresh(body: Seq<char>, section: SectionView, group: Seq<PieceView>) -> bool {
    &&& is_run(body, group, 0)
    &&& group.last().heading == section.heading
    &&& content(body, group).len() > 0
    &&& !whitespace(content(body, group).last())
}

/// How far a section is split: `groups` are those of the chunks, `gs` those of the
/// chunks before the section among them, and `pending` that of the piece that is
/// pending. The pieces of the section so far are `pieces`.
spec fn split_so_far(
    body: Seq<char>,
    config: ChunkingConfig,
    headings: Seq<HeadingView>,
    section: SectionView,
    xs: Seq<RawView>,
    gs: Seq<Seq<PieceView>>,
    state: SplitView,
    pieces: Seq<PieceView>,
    groups: Seq<Seq<PieceView>>,
    pending: Seq<PieceView>,
) -> bool {
    &&& grouped(body, config, headings, state.chunks, groups)
    &&& gs.len() <= groups.len()
    &&& forall|j: int|
        0 <= j < gs.len() ==> #[trigger] groups[j] == gs[j] && state.chunks[j] == xs[j]
    &&& forall|j: int|
        gs.len() <= j < groups.len() ==> fresh(body, section, #[trigger] groups[j]) && weight(
            content(body, groups[j]),
        ) >= 200 && state.chunks[j].section == id_of(section)
    &&& state.pending is None ==> pending.len() == 0
    &&& state.pending matches Some(p) ==> holds(body, headings, p, pending) && fresh(
        body,
        section,
        pending,
    ) && weight(content(body, pending)) < 200 && p.section == id_of(section)
    &&& groups.flatten_alt() + pending == gs.flatten_alt() + pieces
}

/// A fragment behind the pending ones of its section.
proof fn lemma_next_group(
    body: Seq<char>,
    config: ChunkingConfig,
    headings: Seq<HeadingView>,
    fragments: Seq<FragmentView>,
    i: int,
    k: int,
    pending: Option<RawView>,
    group: Seq<PieceView>,
)
    requires
        well_placed(headings, line_count(encode_utf8(body))),
        headings.len() <= usize::MAX,
        0 <= i < sections_of(body, headings).len(),
        pieces_of(sections_of(body, headings)[i].text, split_limit(config), fragments),
        0 <= k < fragments.len(),
        pending is None ==> group.len() == 0,
        pending matches Some(p) ==> holds(body, headings, p, group) && fresh(
            body,
            sections_of(body, headings)[i],
            group,
        ) && weight(content(body, group)) < 200 && p.section == id_of(
            sections_of(body, headings)[i],
        ),
    ensures
        ({
            let section = sections_of(body, headings)[i];
            let raw = fragment_piece(encode_utf8(body), headings, section, k, fragments[k]);
            let grown = match pending {
                Some(p) => appended(headings, p, raw),
                None => raw,
            };
            let all = group + seq![cut_piece(section, k, fragments[k])];
            &&& holds(body, headings, grown, all)
            &&& fresh(body, section, all)
            &&& grown.section == id_of(section)
        }),
{
    let section = sections_of(body, headings)[i];
    let limit = split_limit(config);
    let raw = fragment_piece(encode_utf8(body), headings, section, k, fragments[k]);
    let p = cut_piece(section, k, fragments[k]);
    let all = group + seq![p];
    lemma_holds_fragment(body, config, headings, fragments, i, k);
    match pending {
        Some(before) => {
            lemma_holds_append(body, headings, before, group, raw, seq![p]);
        },
        None => {
            assert(all =~= seq![p]);
        },
    }
    assert(all.last() == p);
    assert forall|m: int| 0 <= m < all.len() implies (#[trigger] all[m]).split && all[m].heading
        == p.heading by {
        if m < group.len() {
            assert(group[m].split && group[m].heading == group.last().heading);
        }
    }
    assert forall|n: int| 0 < n < all.len() implies weight(
        content(body, #[trigger] all.subrange(0, n)),
    ) < 200 by {
        assert(all.subrange(0, n) =~= group.subrange(0, n));
        if n == group.len() {
            assert(group.subrange(0, n) =~= group);
        }
    }
    assert(0 < fragments[k].1.len() && !whitespace(fragments[k].1.last()));
    lemma_section_at(body, headings, i);
    lemma_fragment(body, limit, section, fragments, k);
    lemma_content_one(body, p);
    if group.len() > 0 {
        lemma_content_concat(body, group, seq![p]);
    }
    assert(content(body, all).last() == fragments[k].1.last());
}

/// What is too small to be a chunk is pending.
proof fn lemma_keep_pending(
    body: Seq<char>,
    config: ChunkingConfig,
    headings: Seq<HeadingView>,
    section: SectionView,
    xs: Seq<RawView>,
    gs: Seq<Seq<PieceView>>,
    state: SplitView,
    pieces: Seq<PieceView>,
    groups: Seq<Seq<PieceView>>,
    pending: Seq<PieceView>,
    grown: RawView,
    group: Seq<PieceView>,
    more: Seq<PieceView>,
)
    requires
        split_so_far(body, config, headings, section, xs, gs, state, pieces, groups, pending),
        holds(body, headings, grown, group),
        fresh(body, section, group),
        weight(content(body, group)) < 200,
        grown.section == id_of(section),
        groups.flatten_alt() + group == gs.flatten_alt() + more,
    ensures
        split_so_far(
            body,
            config,
            headings,
            section,
            xs,
            gs,
            (SplitView { chunks: state.chunks, pending: Some(grown) }),
            more,
            groups,
            group,
        ),
{
}

proof fn lemma_split_groups(
    body: Seq<char>,
    config: ChunkingConfig,
    headings: Seq<HeadingView>,
    fragments: Seq<FragmentView>,
    i: int,
    xs: Seq<RawView>,
    gs: Seq<Seq<PieceView>>,
    k: int,
) -> (r: (Seq<Seq<PieceView>>, Seq<PieceView>))
    requires
        well_placed(headings, line_count(encode_utf8(body))),
        headings.len() <= usize::MAX,
        0 <= i < sections_of(body, headings).len(),
        oversized(config, sections_of(body, headings)[i]),
        pieces_of(sections_of(body, headings)[i].text, split_limit(config), fragments),
        grouped(body, config, headings, xs, gs),
        forall|j: int, m: int|
            0 <= j < gs.len() && 0 <= m < gs[j].len() ==> (#[trigger] gs[j][m]).heading
                != sections_of(body, headings)[i].heading,
        0 <= k <= fragments.len(),
    ensures
        ({
            let section = sections_of(body, headings)[i];
            let parts = fragment_pieces(encode_utf8(body), headings, section, fragments);
            let state = split_all(headings, split_limit(config), xs, parts.take(k));
            split_so_far(
                body,
                config,
                headings,
                section,
                xs,
                gs,
                state,
                section_pieces(config, section, fragments).take(k),
                r.0,
                r.1,
            )
        }),
    decreases k,
{
    let bytes = encode_utf8(body);
    let section = sections_of(body, headings)[i];
    let limit = split_limit(config);
    let parts = fragment_pieces(bytes, headings, section, fragments);
    let pieces = section_pieces(config, section, fragments);
    if k == 0 {
        assert(parts.take(0) =~= seq![]);
        assert(pieces.take(0) =~= seq![]);
        let none = Seq::<PieceView>::empty();
        assert(gs.flatten_alt() + none =~= gs.flatten_alt() + pieces.take(0));
        (gs, none)
    } else {
        let r = lemma_split_groups(body, config, headings, fragments, i, xs, gs, k - 1);
        let state = split_all(headings, limit, xs, parts.take(k - 1));
        assert(parts.take(k).drop_last() =~= parts.take(k - 1));
        let raw = parts[k - 1];
        let p = pieces[k - 1];
        assert(parts.take(k).last() == raw);
        let group = r.1 + seq![p];
        let grown = match state.pending {
            Some(pending) => appended(headings, pending, raw),
            None => raw,
        };
        lemma_next_group(body, config, headings, fragments, i, k - 1, state.pending, r.1);
        lemma_holds(body, headings, grown, group);
        let after = split_all(headings, limit, xs, parts.take(k));
        assert(after == placed_piece(state.chunks, grown));
        assert((r.0.flatten_alt() + r.1) + seq![p] =~= gs.flatten_alt() + pieces.take(k)) by {
            assert(pieces.take(k) =~= pieces.take(k - 1).push(p));
        }
        if size(grown.text) < MIN_MERGE_SIZE {
            assert(r.0.flatten_alt() + group =~= (r.0.flatten_alt() + r.1) + seq![p]);
            lemma_keep_pending(
                body,
                config,
                headings,
                section,
                xs,
                gs,
                state,
                pieces.take(k - 1),
                r.0,
                r.1,
                grown,
                group,
                pieces.take(k),
            );
            (r.0, group)
        } else {
            let none = Seq::<PieceView>::empty();
            lemma_run_grouped(body, config, group);
            if r.0.len() > 0 {
                let a = r.0[r.0.len() - 1];
                lemma_holds(body, headings, state.chunks[r.0.len() - 1], a);
                if r.0.len() - 1 < gs.len() {
                    assert(a == gs[r.0.len() - 1]);
                    assert(gs[r.0.len() - 1][a.len() - 1].heading != section.heading);
                }
                assert(apart(body, config, a, group)) by {
                    reveal(apart);
                }
            }
            lemma_push_group(body, config, headings, state.chunks, r.0, grown, group);
            let all = r.0.push(group);
            assert(all.flatten_alt() + none =~= (r.0.flatten_alt() + r.1) + seq![p]);
            assert forall|j: int| 0 <= j < gs.len() implies #[trigger] all[j] == gs[j]
                && after.chunks[j] == xs[j] by {
                assert(r.0[j] == gs[j]);
            }
            assert forall|j: int| gs.len() <= j < all.len() implies fresh(
                body,
                section,
                #[trigger] all[j],
            ) && weight(content(body, all[j])) >= 200 && after.chunks[j].section == id_of(
                section,
            ) by {
                if j < r.0.len() {
                    assert(all[j] == r.0[j]);
                }
            }
            assert(split_so_far(
                body,
                config,
                headings,
                section,
                xs,
                gs,
                after,
                pieces.take(k),
                all,
                none,
            ));
            (all, none)
        }
    }
}

/// The groups behind a section that was split.
proof fn lemma_done_groups(
    body: Seq<char>,
    config: ChunkingConfig,
    headings: Seq<HeadingView>,
    section: SectionView,
    xs: Seq<RawView>,
    gs: Seq<Seq<PieceView>>,
    state: SplitView,
    pieces: Seq<PieceView>,
    groups: Seq<Seq<PieceView>>,
    pending: Seq<PieceView>,
) -> (r: Seq<Seq<PieceView>>)
    requires
        split_so_far(body, config, headings, section, xs, gs, state, pieces, groups, pending),
        gs.len() == xs.len(),
        forall|j: int, m: int|
            0 <= j < gs.len() && 0 <= m < gs[j].len() ==> (#[trigger] gs[j][m]).heading
                != section.heading,
        config.heading_metadata ==> forall|j: int|
            0 <= j < xs.len() ==> (#[trigger] xs[j]).section != id_of(section),
        pieces.len() > 0,
    ensures
        grouped(
            body,
            config,
            headings,
            split_done(headings, split_limit(config), config.heading_metadata, state),
            r,
        ),
        r.flatten_alt() == gs.flatten_alt() + pieces,
        r.len() > 0,
        r.last().last().split,
{
    let limit = split_limit(config);
    let isolate = config.heading_metadata;
    let done = split_done(headings, limit, isolate, state);
    let n = groups.len() as int;
    match state.pending {
        None => {
            assert(groups.flatten_alt() =~= gs.flatten_alt() + pieces);
            assert(n > gs.len()) by {
                if n == gs.len() {
                    assert(groups =~= gs);
                    assert((gs.flatten_alt() + pieces).len() == gs.flatten_alt().len()
                        + pieces.len());
                }
            }
            assert(fresh(body, section, groups[n - 1]));
            let last = groups[n - 1];
            assert(last[last.len() - 1].split);
            groups
        },
        Some(tail) => {
            assert(blank_line() =~= seq!['\n', '\n']);
            assert(pending[pending.len() - 1].split && pending[0].split);
            assert(pending[0].heading == section.heading);
            lemma_run_grouped(body, config, pending);
            if n == 0 {
                lemma_push_group(body, config, headings, state.chunks, groups, tail, pending);
                assert(groups.push(pending).last() == pending);
                groups.push(pending)
            } else {
                let a = groups[n - 1];
                let last = state.chunks[n - 1];
                lemma_holds(body, headings, last, a);
                lemma_holds(body, headings, tail, pending);
                assert(n - 1 < gs.len() ==> a == gs[n - 1] && last == xs[n - 1]);
                assert(n - 1 < gs.len() ==> forall|m: int|
                    0 <= m < a.len() ==> (#[trigger] a[m]).heading != section.heading) by {
                    if n - 1 < gs.len() {
                        assert forall|m: int| 0 <= m < a.len() implies (#[trigger] a[m]).heading
                            != section.heading by {
                            assert(gs[n - 1][m].heading != section.heading);
                        }
                    }
                }
                assert(n - 1 >= gs.len() ==> fresh(body, section, a) && weight(content(body, a))
                    >= 200 && last.section == id_of(section));
                lemma_content_concat(body, a, pending);
                if fits(last.text, tail.text, limit) && (last.section == tail.section || !isolate) {
                    let all = a + pending;
                    lemma_holds_append(body, headings, last, a, tail, pending);
                    assert(all.last() == pending.last());
                    assert(all.take(a.len() as int) =~= a);
                    assert(all.skip(a.len() as int) =~= pending);
                    assert(well_grouped(body, config, a));
                    assert(is_run(body, all, a.len() as int)) by {
                        assert forall|i: int| a.len() <= i < all.len() implies (
                        #[trigger] all[i]).split && all[i].heading == all.last().heading by {
                            assert(all[i] == pending[i - a.len()]);
                        }
                        assert forall|m: int| a.len() < m < all.len() implies weight(
                            content(body, #[trigger] all.subrange(a.len() as int, m)),
                        ) < 200 by {
                            assert(all.subrange(a.len() as int, m) =~= pending.subrange(
                                0,
                                m - a.len(),
                            ));
                        }
                    }
                    if isolate {
                        assert(n - 1 >= gs.len());
                        assert(a[a.len() - 1].heading == section.heading);
                    }
                    assert(well_grouped(body, config, all)) by {
                        reveal_with_fuel(well_grouped, 1);
                    }
                    assert(all[0] == a[0]);
                    if n - 1 >= gs.len() {
                        lemma_byte_len_bounds(trim(content(body, a)));
                        lemma_weight_grows(content(body, a), content(body, pending));
                    } else {
                        assert(a[0].heading != section.heading);
                        assert(all[all.len() - 1].heading == section.heading);
                    }
                    lemma_grow_group(
                        body,
                        config,
                        headings,
                        state.chunks,
                        groups,
                        appended(headings, last, tail),
                        pending,
                    );
                    let r = groups.drop_last().push(all);
                    assert(r.flatten_alt() =~= gs.flatten_alt() + pieces);
                    assert(r.last() == all);
                    r
                } else {
                    assert(apart(body, config, a, pending)) by {
                        reveal(apart);
                    }
                    lemma_push_group(body, config, headings, state.chunks, groups, tail, pending);
                    let r = groups.push(pending);
                    assert(r.last() == pending);
                    r
                }
            }
        },
    }
}

/// The groups behind one more section, if it is split.
proof fn lemma_groups_split(
    body: Seq<char>,
    config: ChunkingConfig,
    headings: Seq<HeadingView>,
    fragments: Seq<FragmentView>,
    i: int,
    xs: Seq<RawView>,
    gs: Seq<Seq<PieceView>>,
) -> (r: Seq<Seq<PieceView>>)
    requires
        well_placed(headings, line_count(encode_utf8(body))),
        headings.len() <= usize::MAX,
        0 <= i < sections_of(body, headings).len(),
        oversized(config, sections_of(body, headings)[i]),
        pieces_of(sections_of(body, headings)[i].text, split_limit(config), fragments),
        grouped(body, config, headings, xs, gs),
        forall|j: int, m: int|
            0 <= j < gs.len() && 0 <= m < gs[j].len() ==> (#[trigger] gs[j][m]).heading
                != sections_of(body, headings)[i].heading,
        config.heading_metadata ==> forall|j: int|
            0 <= j < xs.len() ==> (#[trigger] xs[j]).section != id_of(
                sections_of(body, headings)[i],
            ),
    ensures
        ({
            let section = sections_of(body, headings)[i];
            let parts = fragment_pieces(encode_utf8(body), headings, section, fragments);
            let limit = split_limit(config);
            &&& grouped(
                body,
                config,
                headings,
                split_done(
                    headings,
                    limit,
                    config.heading_metadata,
                    split_all(headings, limit, xs, parts),
                ),
                r,
            )
            &&& r.flatten_alt() == gs.flatten_alt() + section_pieces(config, section, fragments)
            &&& r.len() > 0
            &&& r.last().last().split
        }),
{
    let section = sections_of(body, headings)[i];
    let limit = split_limit(config);
    let pieces = section_pieces(config, section, fragments);
    lemma_section_at(body, headings, i);
    lemma_gaps(body, limit, section, fragments, 0);
    let k = fragments.len() as int;
    let parts = fragment_pieces(encode_utf8(body), headings, section, fragments);
    let (groups, pending) = lemma_split_groups(body, config, headings, fragments, i, xs, gs, k);
    assert(parts.take(k) =~= parts);
    assert(pieces.take(k) =~= pieces);
    let state = split_all(headings, limit, xs, parts);
    lemma_done_groups(body, config, headings, section, xs, gs, state, pieces, groups, pending)
}

/// The groups behind one more section, if it joins the last chunk.
proof fn lemma_groups_join(
    body: Seq<char>,
    config: ChunkingConfig,
    headings: Seq<HeadingView>,
    fragments: Seq<FragmentView>,
    i: int,
    xs: Seq<RawView>,
    gs: Seq<Seq<PieceView>>,
)
    requires
        well_placed(headings, line_count(encode_utf8(body))),
        headings.len() <= usize::MAX,
        0 <= i < sections_of(body, headings).len(),
        !oversized(config, sections_of(body, headings)[i]),
        grouped(body, config, headings, xs, gs),
        gs.len() > 0,
        !gs.last().last().split,
        joins(config, xs.last(), sections_of(body, headings)[i]),
    ensures
        ({
            let section = sections_of(body, headings)[i];
            let pieces = section_pieces(config, section, fragments);
            let r = gs.drop_last().push(gs.last() + pieces);
            &&& grouped(
                body,
                config,
                headings,
                xs.drop_last().push(appended(headings, xs.last(), whole(headings, section))),
                r,
            )
            &&& r.flatten_alt() == gs.flatten_alt() + pieces
            &&& r.len() > 0
            &&& !r.last().last().split
        }),
{
    let section = sections_of(body, headings)[i];
    let pieces = section_pieces(config, section, fragments);
    let piece = whole(headings, section);
    let p = pieces[0];
    let last = xs.last();
    let a = gs[gs.len() - 1];
    lemma_holds_whole(body, config, headings, fragments, i);
    assert(blank_line() =~= seq!['\n', '\n']);
    assert(pieces =~= seq![p]);
    assert(xs[gs.len() - 1] == last);
    assert(holds(body, headings, last, a));
    assert(well_grouped(body, config, a));
    lemma_holds_append(body, headings, last, a, piece, pieces);
    lemma_content_concat(body, a, pieces);
    let all = a + pieces;
    assert(all.last() == p);
    assert forall|m: int| 0 <= m < all.len() implies !(#[trigger] all[m]).split by {
        if m < a.len() {
            reveal_with_fuel(well_grouped, 1);
            assert(all[m] == a[m]);
        }
    }
    assert(well_grouped(body, config, all)) by {
        reveal_with_fuel(well_grouped, 1);
    }
    assert(!all[0].split);
    lemma_grow_group(
        body,
        config,
        headings,
        xs,
        gs,
        appended(headings, last, piece),
        pieces,
    );
    assert(gs.drop_last().push(all).last() == all);
}

/// The groups behind one more section, if it starts a chunk.
proof fn lemma_groups_push(
    body: Seq<char>,
    config: ChunkingConfig,
    headings: Seq<HeadingView>,
    fragments: Seq<FragmentView>,
    i: int,
    xs: Seq<RawView>,
    gs: Seq<Seq<PieceView>>,
)
    requires
        well_placed(headings, line_count(encode_utf8(body))),
        headings.len() <= usize::MAX,
        0 <= i < sections_of(body, headings).len(),
        !oversized(config, sections_of(body, headings)[i]),
        grouped(body, config, headings, xs, gs),
        gs.len() > 0 && !gs.last().last().split ==> !joins(
            config,
            xs.last(),
            sections_of(body, headings)[i],
        ),
    ensures
        ({
            let section = sections_of(body, headings)[i];
            let pieces = section_pieces(config, section, fragments);
            let r = gs.push(pieces);
            &&& grouped(body, config, headings, xs.push(whole(headings, section)), r)
            &&& r.flatten_alt() == gs.flatten_alt() + pieces
            &&& !r.last().last().split
        }),
{
    let section = sections_of(body, headings)[i];
    let pieces = section_pieces(config, section, fragments);
    let piece = whole(headings, section);
    let p = pieces[0];
    lemma_holds_whole(body, config, headings, fragments, i);
    lemma_holds(body, headings, piece, pieces);
    lemma_content_one(body, p);
    assert(blank_line() =~= seq!['\n', '\n']);
    assert(pieces =~= seq![p]);
    assert(well_grouped(body, config, pieces)) by {
        reveal_with_fuel(well_grouped, 1);
    }
    if gs.len() > 0 {
        let a = gs[gs.len() - 1];
        lemma_holds(body, headings, xs[gs.len() - 1], a);
        assert(!pieces[0].split);
        assert(apart(body, config, a, pieces)) by {
            reveal(apart);
        }
    }
    lemma_push_group(body, config, headings, xs, gs, piece, pieces);
    assert(gs.push(pieces).last() == pieces);
}

proof fn lemma_groups(
    body: Seq<char>,
    config: ChunkingConfig,
    headings: Seq<HeadingView>,
    fragments: Seq<Seq<FragmentView>>,
    n: int,
) -> (r: Seq<Seq<PieceView>>)
    requires
        consistent(body, config, headings, fragments),
        0 <= n <= sections_of(body, headings).len(),
    ensures
        ({
            let sections = sections_of(body, headings);
            let state = merge_all(
                encode_utf8(body),
                headings,
                config,
                sections.take(n),
                fragments,
            );
            &&& grouped(body, config, headings, flushed(state), r)
            &&& r.flatten_alt() == pieces_upto(config, sections, fragments, n)
            &&& state.current is Some <==> r.len() > 0 && !r.last().last().split
            &&& forall|k: int, m: int, j: int|
                0 <= k < r.len() && 0 <= m < r[k].len() && n <= j < sections.len() ==> (
                #[trigger] r[k][m]).heading != (#[trigger] sections[j]).heading
        }),
    decreases n,
{
    let bytes = encode_utf8(body);
    let sections = sections_of(body, headings);
    if n == 0 {
        let none = Seq::<Seq<PieceView>>::empty();
        assert(sections.take(0) =~= seq![]);
        assert(none.flatten_alt() =~= pieces_upto(config, sections, fragments, 0));
        none
    } else {
        let i = n - 1;
        let section = sections[i];
        let gs = lemma_groups(body, config, headings, fragments, i);
        assert(sections.take(n).drop_last() =~= sections.take(i));
        assert(sections.take(n).last() == section);
        let before = merge_all(bytes, headings, config, sections.take(i), fragments);
        let after = merge_all(bytes, headings, config, sections.take(n), fragments);
        let xs = flushed(before);
        let pieces = section_pieces(config, section, fragments[i]);
        assert(pieces_upto(config, sections, fragments, n) == pieces_upto(
            config,
            sections,
            fragments,
            i,
        ) + pieces);
        assert forall|j: int, m: int| 0 <= j < gs.len() && 0 <= m < gs[j].len() implies (
        #[trigger] gs[j][m]).heading != section.heading by {}
        let r = if oversized(config, section) {
            if config.heading_metadata {
                lemma_trails(body, config, headings, fragments, i);
                assert forall|j: int| 0 <= j < xs.len() implies (#[trigger] xs[j]).section != id_of(
                    section,
                ) by {
                    assert(xs[j].section != id_of(sections[i]));
                }
            }
            lemma_groups_split(body, config, headings, fragments[i], i, xs, gs)
        } else if before.current is Some && joins(config, before.current->Some_0, section) {
            let grown = appended(headings, before.current->Some_0, whole(headings, section));
            assert(xs.last() == before.current->Some_0);
            lemma_groups_join(body, config, headings, fragments[i], i, xs, gs);
            assert(flushed(after) =~= xs.drop_last().push(grown));
            gs.drop_last().push(gs.last() + pieces)
        } else {
            lemma_groups_push(body, config, headings, fragments[i], i, xs, gs);
            assert(flushed(after) =~= xs.push(whole(headings, section)));
            gs.push(pieces)
        };
        assert forall|k: int, m: int, j: int|
            0 <= k < r.len() && 0 <= m < r[k].len() && n <= j < sections.len() implies (
        #[trigger] r[k][m]).heading != (#[trigger] sections[j]).heading by {
            lemma_in_flat(r, k, m);
            let flat = r.flatten_alt();
            lemma_firsts(body, config, headings, fragments, n);
            let at = choose|at: int| 0 <= at < flat.len() && flat[at] == r[k][m];
            assert(pieces_upto(config, sections, fragments, n)[at].heading != sections[j].heading);
        }
        r
    }
}

/// Where the pieces of group `k` are among all pieces.
proof fn lemma_flat(groups: Seq<Seq<PieceView>>, k: int) -> (base: int)
    requires
        0 <= k < groups.len(),
    ensures
        0 <= base <= base + groups[k].len() <= groups.flatten_alt().len(),
        groups.flatten_alt().subrange(base, base + groups[k].len()) == groups[k],
    decreases groups.len(),
{
    let rest = groups.drop_last();
    let flat = groups.flatten_alt();
    assert(flat == rest.flatten_alt() + groups.last());
    if k == groups.len() - 1 {
        let base = rest.flatten_alt().len() as int;
        assert(flat.subrange(base, base + groups[k].len()) =~= groups[k]);
        base
    } else {
        let base = lemma_flat(rest, k);
        assert(flat.subrange(base, base + groups[k].len()) =~= rest.flatten_alt().subrange(
            base,
            base + rest[k].len(),
        ));
        base
    }
}

/// Every piece of a group is among all pieces.
proof fn lemma_in_flat(groups: Seq<Seq<PieceView>>, k: int, m: int)
    requires
        0 <= k < groups.len(),
        0 <= m < groups[k].len(),
    ensures
        groups.flatten_alt().contains(groups[k][m]),
{
    let base = lemma_flat(groups, k);
    let flat = groups.flatten_alt();
    assert(flat.subrange(base, base + groups[k].len())[m] == flat[base + m]);
}

/// Every piece is in a group.
proof fn lemma_in_group(groups: Seq<Seq<PieceView>>, at: int) -> (r: (int, int))
    requires
        0 <= at < groups.flatten_alt().len(),
    ensures
        0 <= r.0 < groups.len(),
        0 <= r.1 < groups[r.0].len(),
        groups[r.0][r.1] == groups.flatten_alt()[at],
    decreases groups.len(),
{
    let rest = groups.drop_last();
    let n = rest.flatten_alt().len() as int;
    assert(groups.flatten_alt() == rest.flatten_alt() + groups.last());
    if at < n {
        let r = lemma_in_group(rest, at);
        assert(rest[r.0] == groups[r.0]);
        r
    } else {
        (groups.len() - 1, at - n)
    }
}

/// Whether `chunk` speaks of section `id`: of its path, its level and its lines.
pub open spec fn speaks_of(
    headings: Seq<HeadingView>,
    count: nat,
    chunk: ChunkView,
    id: SectionId,
) -> bool {
    match id {
        SectionId::Heading(h) => {
            &&& h < headings.len()
            &&& chunk.heading_path == path_of(headings, Some(h as int))
            &&& chunk.heading_level == headings[h as int].level
            &&& chunk.section_line_start == headings[h as int].line
            &&& chunk.section_line_end == headings[h as int].subtree_end
        },
        SectionId::Preamble => {
            &&& chunk.heading_path.len() == 0
            &&& chunk.heading_level == 0
            &&& chunk.section_line_start == 1
            &&& chunk.section_line_end == (if headings.len() > 0 {
                headings[0].line - 1
            } else {
                count as int
            })
        },
        SectionId::Root => {
            &&& chunk.heading_path.len() == 0
            &&& chunk.heading_level == 0
            &&& chunk.section_line_start == 1
            &&& chunk.section_line_end == count
        },
    }
}

/// What is put before the text of a chunk that stands under `crumb`: the path down
/// to there with `" > "` between its texts, cut to what is kept free for it, and the
/// description, each with a blank line behind it, as far as the configuration asks
/// for them and they are there.
pub open spec fn put_before(
    headings: Seq<HeadingView>,
    config: ChunkingConfig,
    description: Option<Seq<char>>,
    crumb: Option<int>,
) -> Seq<char> {
    let path = path_of(headings, crumb);
    let joined = join(path, seq![' ', '>', ' ']);
    let room = kept_free(config) - 2;
    let trail = if path.len() == 0 || room <= 0 {
        seq![]
    } else if joined.len() <= room {
        joined + seq!['\n', '\n']
    } else {
        joined.take(room) + seq!['\n', '\n']
    };
    match description {
        Some(text) => if config.prepend_description {
            trail + text + seq!['\n', '\n']
        } else {
            trail
        },
        None => trail,
    }
}

/// Whether `chunk` is what `group` makes: it holds the texts of the pieces, goes from
/// the line that the first one starts on to the line that the last one ends on, and
/// speaks of the narrowest section that all of them lie in. Before it stands the
/// path to the deepest heading that all of them stand under.
#[verifier::opaque]
pub open spec fn is_chunk_of(
    body: Seq<char>,
    description: Option<Seq<char>>,
    config: ChunkingConfig,
    headings: Seq<HeadingView>,
    chunk: ChunkView,
    group: Seq<PieceView>,
) -> bool {
    let bytes = encode_utf8(body);
    &&& chunk.line_start == line_at(bytes, group[0].start)
    &&& chunk.line_end == line_at(bytes, group.last().end)
    &&& exists|id: SectionId| #[trigger]
        is_section_of(headings, group, id) && speaks_of(headings, line_count(bytes), chunk, id)
    &&& exists|crumb: Option<int>| #[trigger]
        is_crumb_of(headings, group, crumb) && chunk.text == put_before(
            headings,
            config,
            description,
            crumb,
        ) + content(body, group)
}

/// Whether `piece` is fragment `j` of its section, which is bytes `start..end`, if
/// the sections have the fragments `fragments`, one list for each section.
pub open spec fn is_fragment(
    body: Seq<char>,
    headings: Seq<HeadingView>,
    fragments: Seq<Seq<FragmentView>>,
    piece: PieceView,
    start: int,
    end: int,
    j: int,
) -> bool {
    let i = match piece.heading {
        Some(h) => h + fragments.len() - headings.len(),
        None => 0,
    };
    &&& is_section(body, headings, piece.heading, start, end)
    &&& 0 <= i < fragments.len()
    &&& 0 <= j < fragments[i].len()
    &&& piece.start == start + fragments[i][j].0
    &&& stands_at(body, piece.start, piece.end) == fragments[i][j].1
}

/// Whether all parts of sections among `pieces` are fragments of them.
pub open spec fn parts_are_fragments(
    body: Seq<char>,
    headings: Seq<HeadingView>,
    fragments: Seq<Seq<FragmentView>>,
    pieces: Seq<PieceView>,
) -> bool {
    forall|i: int|
        0 <= i < pieces.len() && (#[trigger] pieces[i]).split ==> exists|
            start: int,
            end: int,
            j: int,
        | #[trigger]
            is_fragment(body, headings, fragments, pieces[i], start, end, j)
}

proof fn lemma_parts(
    body: Seq<char>,
    config: ChunkingConfig,
    headings: Seq<HeadingView>,
    fragments: Seq<Seq<FragmentView>>,
    n: int,
)
    requires
        consistent(body, config, headings, fragments),
        0 <= n <= sections_of(body, headings).len(),
    ensures
        parts_are_fragments(
            body,
            headings,
            fragments,
            pieces_upto(config, sections_of(body, headings), fragments, n),
        ),
    decreases n,
{
    let sections = sections_of(body, headings);
    if n > 0 {
        let s = n - 1;
        let section = sections[s];
        let before = pieces_upto(config, sections, fragments, s);
        let more = section_pieces(config, section, fragments[s]);
        let pieces = pieces_upto(config, sections, fragments, n);
        let skip = preamble_of(body, headings).len() as int;
        lemma_parts(body, config, headings, fragments, s);
        lemma_section_at(body, headings, s);
        if s >= skip {
            assert(section == section_of(body, headings, s - skip));
        }
        assert forall|i: int| 0 <= i < pieces.len() && (#[trigger] pieces[i]).split implies exists|
            start: int,
            end: int,
            j: int,
        | #[trigger]
            is_fragment(body, headings, fragments, pieces[i], start, end, j) by {
            if i < before.len() {
                assert(pieces[i] == before[i]);
            } else {
                let j = i - before.len();
                assert(pieces[i] == more[j]);
                assert(pieces_of(section.text, split_limit(config), fragments[s]));
                lemma_fragment(body, split_limit(config), section, fragments[s], j);
                let end = section.byte_start + byte_len(section.text);
                assert(is_fragment(
                    body,
                    headings,
                    fragments,
                    pieces[i],
                    section.byte_start,
                    end,
                    j,
                ));
            }
        }
    }
}

/// A section that is too large is split by the splitter, at the size up to which it
/// would be one piece.
pub proof fn large_sections_are_split_at_the_largest_size(
    body: Seq<char>,
    config: ChunkingConfig,
    headings: Seq<HeadingView>,
    h: int,
)
    requires
        well_placed(headings, line_count(encode_utf8(body))),
        headings.len() <= usize::MAX,
        0 <= h < headings.len(),
    ensures
        ({
            let fragments = fragments_of(body, headings, config);
            let i = h + fragments.len() - headings.len();
            &&& fragments.len() == headings.len() || fragments.len() == headings.len() + 1
            &&& exists|start: int, end: int| #[trigger]
                is_section(body, headings, Some(h), start, end) && fragments[i] == (if weight(
                    stands_at(body, start, end),
                ) > largest(config) {
                    markdown_fragments(stands_at(body, start, end), largest(config) as usize)
                } else {
                    seq![]
                })
        }),
{
    let sections = sections_of(body, headings);
    let skip = preamble_of(body, headings).len() as int;
    let i = skip + h;
    let section = sections[i];
    assert(section == section_of(body, headings, h));
    lemma_section_at(body, headings, i);
    let end = section.byte_start + byte_len(section.text);
    assert(is_section(body, headings, Some(h), section.byte_start, end));
}

/// The preamble is split like a section, and is passed over if there is nothing in
/// it but whitespace.
pub proof fn a_large_preamble_is_split_at_the_largest_size(
    body: Seq<char>,
    config: ChunkingConfig,
    headings: Seq<HeadingView>,
    end: int,
)
    requires
        well_placed(headings, line_count(encode_utf8(body))),
        headings.len() <= usize::MAX,
        is_section(body, headings, None, 0, end),
    ensures
        ({
            let fragments = fragments_of(body, headings, config);
            let text = stands_at(body, 0, end);
            &&& fragments.len() == headings.len() + (if trim(text).len() > 0 {
                1nat
            } else {
                0
            })
            &&& trim(text).len() > 0 ==> fragments[0] == (if weight(text) > largest(config) {
                markdown_fragments(text, largest(config) as usize)
            } else {
                seq![]
            })
        }),
{
    let bytes = encode_utf8(body);
    let count = line_count(bytes);
    let last = if headings.len() > 0 {
        headings[0].line - 1
    } else {
        count as int
    };
    sections_tile(headings, count);
    lemma_line_starts(bytes);
    lemma_line_at(bytes, end);
    if bytes.len() == 0 {
        assert(bytes.subrange(0, 0) =~= encode_utf8(seq![]));
        encode_utf8_decode_utf8(seq![]);
    } else {
        lines_end_at_line_feeds(bytes, end);
        lemma_line_at(bytes, range_end(bytes, 1, last));
        ranges_hold_the_bytes_of_their_lines(bytes, 1, last, end);
        if last < count {
            assert(line_starts(bytes)[last + 1 - 1] > end);
            if end < bytes.len() {
                lemma_line_at(bytes, end + 1);
                assert(line_at(bytes, end + 1) == last + 1);
                assert(line_starts(bytes)[last + 1 - 1] <= end + 1);
            } else {
                assert(line_at(bytes, end) == count);
            }
        } else if end < bytes.len() {
            lemma_line_at(bytes, end + 1);
            assert(line_at(bytes, end + 1) == last + 1);
        }
        assert(end == range_end(bytes, 1, last));
    }
}

/// Whether `chunks` are what `groups` make, one by one, and all pieces in the groups
/// are those of the body.
pub open spec fn is_layout(
    body: Seq<char>,
    description: Option<Seq<char>>,
    config: ChunkingConfig,
    headings: Seq<HeadingView>,
    fragments: Seq<Seq<FragmentView>>,
    chunks: Seq<ChunkView>,
    groups: Seq<Seq<PieceView>>,
) -> bool {
    &&& cover_the_body(body, config, headings, groups.flatten_alt())
    &&& parts_are_fragments(body, headings, fragments, groups.flatten_alt())
    &&& well_cut(body, config, groups)
    &&& chunks.len() == groups.len()
    &&& forall|k: int|
        0 <= k < chunks.len() ==> (#[trigger] chunks[k]).index == k && is_chunk_of(
            body,
            description,
            config,
            headings,
            chunks[k],
            groups[k],
        )
}

/// Whether `chunks` are the pieces of the body, put together as far as they have to
/// be and may be.
pub open spec fn laid_out(
    body: Seq<char>,
    description: Option<Seq<char>>,
    config: ChunkingConfig,
    headings: Seq<HeadingView>,
    fragments: Seq<Seq<FragmentView>>,
    chunks: Seq<ChunkView>,
) -> bool {
    exists|groups: Seq<Seq<PieceView>>| #[trigger]
        is_layout(body, description, config, headings, fragments, chunks, groups)
}

proof fn lemma_finished(
    body: Seq<char>,
    description: Option<Seq<char>>,
    config: ChunkingConfig,
    headings: Seq<HeadingView>,
    k: int,
    raw: RawView,
    group: Seq<PieceView>,
)
    requires
        headings.len() <= usize::MAX,
        holds(body, headings, raw, group),
        raw_in(raw, headings.len()),
    ensures
        is_chunk_of(
            body,
            description,
            config,
            headings,
            finished(
                headings,
                line_count(encode_utf8(body)),
                config,
                description,
                k,
                raw,
            ),
            group,
        ),
{
    reveal(holds);
    reveal(is_chunk_of);
    let count = line_count(encode_utf8(body));
    let chunk = finished(headings, count, config, description, k, raw);
    assert(is_section_of(headings, group, raw.section));
    assert(speaks_of(headings, count, chunk, raw.section));
    assert(is_crumb_of(headings, group, raw.breadcrumb));
    assert(blank_line() =~= seq!['\n', '\n']);
    let before = put_before(headings, config, description, raw.breadcrumb);
    assert(chunk.text =~= before + content(body, group));
}

proof fn lemma_layout(
    body: Seq<char>,
    description: Option<Seq<char>>,
    config: ChunkingConfig,
    headings: Seq<HeadingView>,
    fragments: Seq<Seq<FragmentView>>,
) -> (groups: Seq<Seq<PieceView>>)
    requires
        consistent(body, config, headings, fragments),
    ensures
        is_layout(
            body,
            description,
            config,
            headings,
            fragments,
            chunks_of(body, description, config, headings, fragments),
            groups,
        ),
        covered(
            body,
            config,
            headings,
            groups.flatten_alt(),
            encode_utf8(body).len() as int,
        ),
{
    let sections = sections_of(body, headings);
    let skip = preamble_of(body, headings).len() as int;
    let n = sections.len() as int;
    let raws = raw_chunks(body, headings, config, fragments);
    let chunks = chunks_of(body, description, config, headings, fragments);
    let groups = lemma_groups(body, config, headings, fragments, n);
    assert(sections.take(n) =~= sections);
    assert(n == skip + headings.len());
    lemma_cover(body, config, headings, fragments, headings.len() as int);
    lemma_firsts(body, config, headings, fragments, n);
    lemma_parts(body, config, headings, fragments, n);
    assert(covers_up_to(
        body,
        config,
        headings,
        groups.flatten_alt(),
        encode_utf8(body).len() as int,
    )) by {
        reveal(covered);
    }
    chunks_lie_in_their_sections(body, description, config, headings, fragments);
    assert forall|k: int| 0 <= k < chunks.len() implies (#[trigger] chunks[k]).index == k
        && is_chunk_of(body, description, config, headings, chunks[k], groups[k]) by {
        assert(holds(body, headings, raws[k], groups[k]));
        assert(raw_in(raws[k], headings.len()));
        lemma_finished(body, description, config, headings, k, raws[k], groups[k]);
    }
    groups
}

/// The chunks of a body are laid out in it: they are its sections, and the parts of
/// those that are too large, in their order and with nothing but whitespace left
/// out, put together as far as they have to be and may be. Each chunk goes from the
/// line that its first piece starts on to the line that its last piece ends on.
pub proof fn chunks_are_laid_out(
    body: Seq<char>,
    description: Option<Seq<char>>,
    config: ChunkingConfig,
    headings: Seq<HeadingView>,
    fragments: Seq<Seq<FragmentView>>,
)
    requires
        consistent(body, config, headings, fragments),
    ensures
        laid_out(
            body,
            description,
            config,
            headings,
            fragments,
            chunks_of(body, description, config, headings, fragments),
        ),
{
    let groups = lemma_layout(body, description, config, headings, fragments);
}

/// Pieces that follow each other.
spec fn ordered(pieces: Seq<PieceView>) -> bool {
    &&& forall|i: int|
        0 <= i < pieces.len() ==> 0 <= (#[trigger] pieces[i]).start <= pieces[i].end
    &&& forall|i: int, j: int|
        0 <= i < j < pieces.len() ==> (#[trigger] pieces[i]).end <= (#[trigger] pieces[j]).start
}

proof fn lemma_covered_order(
    body: Seq<char>,
    config: ChunkingConfig,
    headings: Seq<HeadingView>,
    pieces: Seq<PieceView>,
    end: int,
)
    requires
        covered(body, config, headings, pieces, end),
    ensures
        ordered(pieces),
{
    reveal(covered);
}

proof fn lemma_piece_order(
    body: Seq<char>,
    config: ChunkingConfig,
    headings: Seq<HeadingView>,
    pieces: Seq<PieceView>,
)
    requires
        cover_the_body(body, config, headings, pieces),
    ensures
        ordered(pieces),
{
    assert forall|i: int| 0 <= i < pieces.len() implies 0 <= (#[trigger] pieces[i]).start
        <= pieces[i].end by {
        assert(is_piece(body, config, headings, pieces[i]));
        reveal(is_piece);
    }
}

/// The pieces of a group are between its first and its last one.
proof fn lemma_group_order(groups: Seq<Seq<PieceView>>, k: int, m: int)
    requires
        ordered(groups.flatten_alt()),
        0 <= k < groups.len(),
        0 <= m < groups[k].len(),
    ensures
        0 <= groups[k][0].start <= groups[k][m].start,
        groups[k][m].end <= groups[k].last().end,
{
    let group = groups[k];
    let pieces = groups.flatten_alt();
    let base = lemma_flat(groups, k);
    let part = pieces.subrange(base, base + group.len());
    let n = group.len() - 1;
    assert(part[0] == pieces[base] && part[m] == pieces[base + m] && part[n] == pieces[base + n]);
}

proof fn lemma_chunk_lines(
    body: Seq<char>,
    description: Option<Seq<char>>,
    config: ChunkingConfig,
    headings: Seq<HeadingView>,
    chunk: ChunkView,
    group: Seq<PieceView>,
)
    requires
        is_chunk_of(body, description, config, headings, chunk, group),
    ensures
        chunk.line_start == line_at(encode_utf8(body), group[0].start),
        chunk.line_end == line_at(encode_utf8(body), group.last().end),
{
    reveal(is_chunk_of);
}

/// A place in the body that no piece comes near is in a blank part of it.
proof fn lemma_untouched(
    body: Seq<char>,
    config: ChunkingConfig,
    headings: Seq<HeadingView>,
    pieces: Seq<PieceView>,
    end: int,
    from: int,
    to: int,
    k: int,
)
    requires
        covered(body, config, headings, pieces, end),
        0 <= from <= to <= end,
        is_char_boundary(encode_utf8(body), from),
        is_char_boundary(encode_utf8(body), to),
        forall|i: int|
            0 <= i < pieces.len() ==> (#[trigger] pieces[i]).start > to || pieces[i].end < from,
        0 <= k <= pieces.len(),
        forall|i: int| 0 <= i < k ==> (#[trigger] pieces[i]).end < from,
    ensures
        blank(body, from, to),
    decreases pieces.len() - k,
{
    reveal(covered);
    encode_utf8_valid_utf8(body);
    is_char_boundary_start_end_of_seq(encode_utf8(body));
    let before = if k == 0 {
        0
    } else {
        pieces[k - 1].end
    };
    assert(before <= from);
    assert(is_char_boundary(encode_utf8(body), before));
    if k == pieces.len() {
        lemma_blank_part(body, before, from, to, end);
    } else if pieces[k].end < from {
        lemma_untouched(body, config, headings, pieces, end, from, to, k + 1);
    } else {
        if k > 0 {
            assert(blank(body, pieces[k - 1].end, pieces[k].start));
        }
        lemma_blank_part(body, before, from, to, pieces[k].start);
    }
}

/// The lines of the chunks together hold every line of the body with text on it.
pub proof fn every_line_with_text_is_in_a_chunk(
    body: Seq<char>,
    description: Option<Seq<char>>,
    config: ChunkingConfig,
    headings: Seq<HeadingView>,
    fragments: Seq<Seq<FragmentView>>,
    n: int,
)
    requires
        consistent(body, config, headings, fragments),
        1 <= n <= line_count(encode_utf8(body)),
        trim(
            stands_at(
                body,
                range_start(encode_utf8(body), n),
                range_end(encode_utf8(body), n, n),
            ),
        ).len() > 0,
    ensures
        exists|k: int|
            0 <= k < chunks_of(body, description, config, headings, fragments).len() && (
            #[trigger] chunks_of(body, description, config, headings, fragments)[k]).line_start <= n
                <= chunks_of(body, description, config, headings, fragments)[k].line_end,
{
    let bytes = encode_utf8(body);
    let chunks = chunks_of(body, description, config, headings, fragments);
    let from = range_start(bytes, n);
    let to = range_end(bytes, n, n);
    let groups = lemma_layout(body, description, config, headings, fragments);
    let pieces = groups.flatten_alt();
    encode_utf8_valid_utf8(body);
    lemma_range(bytes, n, n);
    if forall|i: int|
        0 <= i < pieces.len() ==> (#[trigger] pieces[i]).start > to || pieces[i].end < from {
        lemma_untouched(body, config, headings, pieces, bytes.len() as int, from, to, 0);
    } else {
        let at = choose|at: int|
            0 <= at < pieces.len() && !((#[trigger] pieces[at]).start > to || pieces[at].end
                < from);
        let (k, m) = lemma_in_group(groups, at);
        let group = groups[k];
        lemma_covered_order(body, config, headings, pieces, bytes.len() as int);
        lemma_group_order(groups, k, m);
        let first = group[0];
        let last = group[group.len() - 1];
        ranges_hold_the_bytes_of_their_lines(bytes, n, n, from);
        ranges_hold_the_bytes_of_their_lines(bytes, n, n, to);
        lemma_line_at_monotone(bytes, first.start, to);
        lemma_line_at_monotone(bytes, from, last.end);
        lemma_chunk_lines(body, description, config, headings, chunks[k], group);
        assert(chunks[k].line_start <= n <= chunks[k].line_end);
    }
}

/// What a chunk holds of the body stands on its lines, and nowhere else.
pub proof fn pieces_stand_on_the_lines_of_their_chunk(
    body: Seq<char>,
    description: Option<Seq<char>>,
    config: ChunkingConfig,
    headings: Seq<HeadingView>,
    fragments: Seq<Seq<FragmentView>>,
    chunks: Seq<ChunkView>,
    groups: Seq<Seq<PieceView>>,
    k: int,
    m: int,
    byte: int,
)
    requires
        is_layout(body, description, config, headings, fragments, chunks, groups),
        0 <= k < groups.len(),
        0 <= m < groups[k].len(),
        groups[k][m].start <= byte <= groups[k][m].end,
    ensures
        chunks[k].line_start <= line_at(encode_utf8(body), byte) <= chunks[k].line_end,
{
    let bytes = encode_utf8(body);
    let group = groups[k];
    let first = group[0];
    let last = group[group.len() - 1];
    lemma_piece_order(body, config, headings, groups.flatten_alt());
    lemma_group_order(groups, k, m);
    lemma_line_at_monotone(bytes, first.start, byte);
    lemma_line_at_monotone(bytes, byte, last.end);
    lemma_chunk_lines(body, description, config, headings, chunks[k], group);
}

/// A heading path that is put before a text is the start of its texts with `" > "`
/// between them, as long as there is room for. There is none without room or texts.
pub proof fn heading_paths_are_cut_to_their_room(path: Seq<Seq<char>>, room: nat)
    ensures
        path_prefix(path, room) is None <==> path.len() == 0 || room == 0,
        path_prefix(path, room) matches Some(prefix) ==> {
            let all = join(path, seq![' ', '>', ' ']);
            &&& prefix.is_prefix_of(all)
            &&& prefix.len() == (if all.len() <= room {
                all.len()
            } else {
                room
            })
        },
{
}

/// The room for a heading path is a quarter of the maximum size, at most 200.
pub proof fn a_quarter_is_kept_free(max: usize)
    ensures
        path_budget(max) <= 200,
        4 * path_budget(max) <= max,
        path_budget(max) == 200 || 4 * (path_budget(max) + 1) > max,
{
}

/// The headings of a body are those that the parser reports for it.
pub proof fn headings_are_those_of_the_parser(body: Seq<char>)
    ensures
        headings_of(body) == outline(
            scanned(encode_utf8(body), markdown_events(body, PARSER_OPTIONS)).found,
            line_count(encode_utf8(body)),
        ),
{
}

} // verus!
