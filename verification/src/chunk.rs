//! Cutting the body of a document into chunks.
//!
//! A body is cut at its headings. Small sections that follow each other are put
//! together up to the target size, a section above the maximum size is split. A
//! chunk is attributed to the narrowest section that holds all of it.
//!
//! With `heading_metadata` on, nothing is put together across a heading, so
//! every chunk lies in the section of one heading or in the preamble.
use text_splitter::MarkdownSplitter;
use vstd::prelude::*;
use vstd::string::*;
use vstd::utf8::*;

use crate::chunk_laws::{
    all_stay_in_one_section, chunks_lie_in_their_sections, consistent,
    isolated_chunks_are_attributed_exactly, well_covered,
};
use crate::config::{target_size, ChunkingConfig};
use crate::heading::{
    common, heading_views, in_tree, lemma_parent, node, outline, path_of, preamble_end, scanned,
    HeadingTree, HeadingView,
};
use crate::layout_laws::{chunks_are_laid_out, laid_out};
use crate::lines::{lemma_line_starts, lemma_range, line_at, line_count, range_end, range_start};
use crate::markup::{markdown_events, PARSER_OPTIONS};
use crate::section::{
    merged, section_first, section_in, section_last, section_level, section_path, SectionId,
};
use crate::text::{
    byte_len, byte_slice, dense, join, joined, lemma_byte_len_bounds, lemma_byte_slice,
    lemma_whole_slice, slice, text_of, trim, trimmed_len, views, whitespace,
};

verus! {

/// A fragment of a split section that is smaller than this is put together with
/// its neighbour, so that no heading or opening code fence stands alone.
pub const MIN_MERGE_SIZE: usize = 200;

/// How many characters the heading path before a chunk takes at most.
pub const MAX_HEADING_PATH_CHARS: usize = 200;

/// What stands between two pieces of a chunk.
pub open spec fn blank_line() -> Seq<char> {
    seq!['\n', '\n']
}

/// The size of a text: its bytes without the whitespace at its start and end.
pub open spec fn size(text: Seq<char>) -> nat {
    byte_len(trim(text))
}

/// A run of lines between headings: the section of one heading, or the preamble.
pub struct SectionView {
    /// The lines.
    pub text: Seq<char>,
    /// The byte of the body that they start at.
    pub byte_start: int,
    /// The first line.
    pub line_start: int,
    /// The last line.
    pub line_end: int,
    /// The heading; `None` for the preamble.
    pub heading: Option<int>,
}

/// Lines `first..=last` of `body`, as the section of `heading`.
pub open spec fn section_at(
    body: Seq<char>,
    first: int,
    last: int,
    heading: Option<int>,
) -> SectionView {
    let bytes = encode_utf8(body);
    let start = range_start(bytes, first);
    SectionView {
        text: byte_slice(body, start, range_end(bytes, first, last)),
        byte_start: start,
        line_start: first,
        line_end: last,
        heading,
    }
}

/// The preamble, if it has any text.
pub open spec fn preamble_of(body: Seq<char>, headings: Seq<HeadingView>) -> Seq<SectionView> {
    let last = preamble_end(headings, line_count(encode_utf8(body)));
    let section = section_at(body, 1, last, None);
    if last > 0 && trim(section.text).len() > 0 {
        seq![section]
    } else {
        seq![]
    }
}

/// The section of heading `i`.
pub open spec fn section_of(body: Seq<char>, headings: Seq<HeadingView>, i: int) -> SectionView {
    section_at(body, headings[i].line as int, headings[i].section_end, Some(i))
}

/// The sections of `body`: the preamble, unless it is blank, and the section of
/// each heading.
pub open spec fn sections_of(body: Seq<char>, headings: Seq<HeadingView>) -> Seq<SectionView> {
    preamble_of(body, headings) + Seq::new(
        headings.len(),
        |i: int| section_of(body, headings, i),
    )
}

/// A piece of the body on its way to be a chunk.
pub struct RawView {
    /// Its text.
    pub text: Seq<char>,
    /// Its first line.
    pub line_start: int,
    /// Its last line.
    pub line_end: int,
    /// The heading whose path is put before it.
    pub breadcrumb: Option<int>,
    /// The section it is attributed to.
    pub section: SectionId,
}

/// `raw` with `piece` added to it. Of their headings it keeps what both have in
/// common.
pub open spec fn appended(headings: Seq<HeadingView>, raw: RawView, piece: RawView) -> RawView {
    RawView {
        text: raw.text + blank_line() + piece.text,
        line_start: raw.line_start,
        line_end: piece.line_end,
        breadcrumb: common(headings, raw.breadcrumb, piece.breadcrumb),
        section: merged(headings, raw.section, piece.section),
    }
}

/// The section that the text of `section` is attributed to.
pub open spec fn id_of(section: SectionView) -> SectionId {
    match section.heading {
        Some(i) => SectionId::Heading(i as usize),
        None => SectionId::Preamble,
    }
}

/// The heading whose path is put before a text that starts with the heading of
/// `section`: the one that it is nested under.
pub open spec fn leading(headings: Seq<HeadingView>, section: SectionView) -> Option<int> {
    match section.heading {
        Some(i) => headings[i].parent,
        None => None,
    }
}

/// All of `section` as one piece.
pub open spec fn whole(headings: Seq<HeadingView>, section: SectionView) -> RawView {
    RawView {
        text: section.text,
        line_start: section.line_start,
        line_end: section.line_end,
        breadcrumb: leading(headings, section),
        section: id_of(section),
    }
}

/// Whether the texts `a` and `b`, put together with a blank line between them,
/// have a size of at most `limit`.
pub open spec fn fits(a: Seq<char>, b: Seq<char>, limit: nat) -> bool {
    size(a + blank_line() + b) <= limit
}

/// The characters that are kept free for the heading path before a chunk of at
/// most `max` bytes, with the blank line that follows it.
pub open spec fn path_budget(max: usize) -> usize {
    if max / 4 < MAX_HEADING_PATH_CHARS {
        max / 4
    } else {
        MAX_HEADING_PATH_CHARS
    }
}

/// The characters that are kept free for the heading path before a chunk.
pub open spec fn reserve(config: ChunkingConfig) -> usize {
    if config.prepend_heading_path {
        path_budget(config.max_chunk_size)
    } else {
        0
    }
}

/// `a - b`, or 0 if `b` is larger.
pub open spec fn less(a: usize, b: usize) -> nat {
    if a > b {
        (a - b) as nat
    } else {
        0
    }
}

/// The size above which a section is split.
pub open spec fn split_limit(config: ChunkingConfig) -> nat {
    less(config.max_chunk_size, reserve(config))
}

/// The size up to which sections are put together.
pub open spec fn merge_limit(config: ChunkingConfig) -> nat {
    less(target_size(config), reserve(config))
}

/// A fragment of a split section: the byte of the section that it starts at, and
/// its text.
pub type FragmentView = (usize, Seq<char>);

/// Whether `section` is split.
pub open spec fn oversized(config: ChunkingConfig, section: SectionView) -> bool {
    size(section.text) > split_limit(config)
}

/// Fragment `k` of `section` as a piece. Only the first one starts with the
/// heading.
pub open spec fn fragment_piece(
    bytes: Seq<u8>,
    headings: Seq<HeadingView>,
    section: SectionView,
    k: int,
    fragment: FragmentView,
) -> RawView {
    let start = section.byte_start + fragment.0;
    let last = if byte_len(fragment.1) == 0 {
        start
    } else {
        start + byte_len(fragment.1) - 1
    };
    let line_start = line_at(bytes, start) as int;
    let line_last = line_at(bytes, last) as int;
    let line_capped = if line_last < section.line_end {
        line_last
    } else {
        section.line_end
    };
    RawView {
        text: fragment.1,
        line_start,
        line_end: if line_capped > line_start {
            line_capped
        } else {
            line_start
        },
        breadcrumb: if k == 0 {
            leading(headings, section)
        } else {
            section.heading
        },
        section: id_of(section),
    }
}

/// All fragments of `section` as pieces.
pub open spec fn fragment_pieces(
    bytes: Seq<u8>,
    headings: Seq<HeadingView>,
    section: SectionView,
    fragments: Seq<FragmentView>,
) -> Seq<RawView> {
    Seq::new(
        fragments.len(),
        |k: int| fragment_piece(bytes, headings, section, k, fragments[k]),
    )
}

/// How far the fragments of a section have been put together.
pub struct SplitView {
    /// The chunks so far, those of earlier sections with them.
    pub chunks: Seq<RawView>,
    /// A piece that is too small to be a chunk.
    pub pending: Option<RawView>,
}

/// `piece` as a chunk, or as a pending piece if it is too small.
pub open spec fn placed_piece(chunks: Seq<RawView>, piece: RawView) -> SplitView {
    if size(piece.text) < MIN_MERGE_SIZE {
        SplitView { chunks, pending: Some(piece) }
    } else {
        SplitView { chunks: chunks.push(piece), pending: None }
    }
}

/// One more piece of a split section. A pending piece takes it up if both fit
/// into one chunk, or if it is too small to be a chunk.
pub open spec fn split_step(
    headings: Seq<HeadingView>,
    limit: nat,
    state: SplitView,
    piece: RawView,
) -> SplitView {
    match state.pending {
        Some(pending) => if fits(pending.text, piece.text, limit) || size(pending.text)
            < MIN_MERGE_SIZE {
            placed_piece(state.chunks, appended(headings, pending, piece))
        } else {
            placed_piece(state.chunks.push(pending), piece)
        },
        None => placed_piece(state.chunks, piece),
    }
}

/// All `pieces` of a split section, behind `chunks`.
pub open spec fn split_all(
    headings: Seq<HeadingView>,
    limit: nat,
    chunks: Seq<RawView>,
    pieces: Seq<RawView>,
) -> SplitView
    decreases pieces.len(),
{
    if pieces.len() == 0 {
        SplitView { chunks, pending: None }
    } else {
        split_step(
            headings,
            limit,
            split_all(headings, limit, chunks, pieces.drop_last()),
            pieces.last(),
        )
    }
}

/// The chunks behind a split section. A piece that is still pending joins the
/// last chunk if it fits, unless that is a chunk of another section and sections
/// are kept apart.
pub open spec fn split_done(
    headings: Seq<HeadingView>,
    limit: nat,
    isolate: bool,
    state: SplitView,
) -> Seq<RawView> {
    match state.pending {
        Some(tail) => if state.chunks.len() > 0 && fits(
            state.chunks.last().text,
            tail.text,
            limit,
        ) && (state.chunks.last().section == tail.section || !isolate) {
            state.chunks.drop_last().push(appended(headings, state.chunks.last(), tail))
        } else {
            state.chunks.push(tail)
        },
        None => state.chunks,
    }
}

/// How far the sections have been put together.
pub struct MergeView {
    /// The chunks so far.
    pub chunks: Seq<RawView>,
    /// The chunk that the next section may join.
    pub current: Option<RawView>,
}

/// The chunks, with the current one.
pub open spec fn flushed(state: MergeView) -> Seq<RawView> {
    match state.current {
        Some(current) => state.chunks.push(current),
        None => state.chunks,
    }
}

/// Whether `section` joins the current chunk.
pub open spec fn joins(config: ChunkingConfig, current: RawView, section: SectionView) -> bool {
    !config.heading_metadata && fits(current.text, section.text, merge_limit(config))
}

/// One more section, with its fragments if it is split.
pub open spec fn merge_step(
    bytes: Seq<u8>,
    headings: Seq<HeadingView>,
    config: ChunkingConfig,
    state: MergeView,
    section: SectionView,
    fragments: Seq<FragmentView>,
) -> MergeView {
    if oversized(config, section) {
        let pieces = fragment_pieces(bytes, headings, section, fragments);
        let split = split_all(headings, split_limit(config), flushed(state), pieces);
        MergeView {
            chunks: split_done(headings, split_limit(config), config.heading_metadata, split),
            current: None,
        }
    } else if state.current is Some && joins(config, state.current->Some_0, section) {
        MergeView {
            chunks: state.chunks,
            current: Some(appended(headings, state.current->Some_0, whole(headings, section))),
        }
    } else {
        MergeView { chunks: flushed(state), current: Some(whole(headings, section)) }
    }
}

/// All `sections`, each with its fragments.
pub open spec fn merge_all(
    bytes: Seq<u8>,
    headings: Seq<HeadingView>,
    config: ChunkingConfig,
    sections: Seq<SectionView>,
    fragments: Seq<Seq<FragmentView>>,
) -> MergeView
    decreases sections.len(),
{
    if sections.len() == 0 {
        MergeView { chunks: seq![], current: None }
    } else {
        merge_step(
            bytes,
            headings,
            config,
            merge_all(bytes, headings, config, sections.drop_last(), fragments),
            sections.last(),
            fragments[sections.len() - 1],
        )
    }
}

/// The raw chunks of `body`.
pub open spec fn raw_chunks(
    body: Seq<char>,
    headings: Seq<HeadingView>,
    config: ChunkingConfig,
    fragments: Seq<Seq<FragmentView>>,
) -> Seq<RawView> {
    flushed(
        merge_all(
            encode_utf8(body),
            headings,
            config,
            sections_of(body, headings),
            fragments,
        ),
    )
}

/// The heading path that is put before a chunk: its texts with `" > "` between
/// them, cut to `budget` characters. There is none if the path is empty or the
/// budget 0.
pub open spec fn path_prefix(path: Seq<Seq<char>>, budget: nat) -> Option<Seq<char>> {
    let joined = join(path, seq![' ', '>', ' ']);
    if path.len() == 0 || budget == 0 {
        None
    } else if joined.len() <= budget {
        Some(joined)
    } else {
        Some(joined.take(budget as int))
    }
}

/// How many characters the heading path before a chunk has at most.
pub open spec fn prefix_chars(config: ChunkingConfig) -> nat {
    less(reserve(config), 2)
}

/// A chunk of a document.
pub struct ChunkView {
    /// Its text.
    pub text: Seq<char>,
    /// Its number.
    pub index: int,
    /// Its first line.
    pub line_start: int,
    /// Its last line.
    pub line_end: int,
    /// The heading texts down to its section.
    pub heading_path: Seq<Seq<char>>,
    /// The level of its section's heading.
    pub heading_level: u8,
    /// The first line of its section.
    pub section_line_start: int,
    /// The last line of its section.
    pub section_line_end: int,
}

/// The text of a chunk: the heading path, the description of the document and
/// the text of `raw`, with blank lines between them.
pub open spec fn chunk_text(
    headings: Seq<HeadingView>,
    config: ChunkingConfig,
    description: Option<Seq<char>>,
    raw: RawView,
) -> Seq<char> {
    let described = match description {
        Some(text) => if config.prepend_description {
            text + blank_line() + raw.text
        } else {
            raw.text
        },
        None => raw.text,
    };
    match path_prefix(path_of(headings, raw.breadcrumb), prefix_chars(config)) {
        Some(prefix) => if config.prepend_heading_path {
            prefix + blank_line() + described
        } else {
            described
        },
        None => described,
    }
}

/// Raw chunk number `index`, finished.
pub open spec fn finished(
    headings: Seq<HeadingView>,
    count: nat,
    config: ChunkingConfig,
    description: Option<Seq<char>>,
    index: int,
    raw: RawView,
) -> ChunkView {
    ChunkView {
        text: chunk_text(headings, config, description, raw),
        index,
        line_start: raw.line_start,
        line_end: raw.line_end,
        heading_path: section_path(headings, raw.section),
        heading_level: section_level(headings, raw.section),
        section_line_start: section_first(headings, raw.section),
        section_line_end: section_last(headings, count, raw.section),
    }
}

/// The chunks of `body`, if `headings` are its headings and `fragments` the
/// fragments of its sections.
pub open spec fn chunks_of(
    body: Seq<char>,
    description: Option<Seq<char>>,
    config: ChunkingConfig,
    headings: Seq<HeadingView>,
    fragments: Seq<Seq<FragmentView>>,
) -> Seq<ChunkView> {
    let raws = raw_chunks(body, headings, config, fragments);
    Seq::new(
        raws.len(),
        |i: int|
            finished(
                headings,
                line_count(encode_utf8(body)),
                config,
                description,
                i,
                raws[i],
            ),
    )
}

/// A run of lines between headings: the section of one heading, or the preamble.
pub struct Section<'a> {
    /// The lines, as they stand in the body.
    pub text: &'a str,
    /// The byte of the body that they start at.
    pub byte_start: usize,
    /// The first line.
    pub line_start: usize,
    /// The last line.
    pub line_end: usize,
    /// The number of the heading; `None` for the preamble.
    pub heading: Option<usize>,
}

impl<'a> View for Section<'a> {
    type V = SectionView;

    open spec fn view(&self) -> SectionView {
        SectionView {
            text: self.text@,
            byte_start: self.byte_start as int,
            line_start: self.line_start as int,
            line_end: self.line_end as int,
            heading: node(self.heading),
        }
    }
}

/// The views of a list of sections.
pub open spec fn section_views<'a>(sections: Seq<Section<'a>>) -> Seq<SectionView> {
    sections.map_values(|s: Section<'a>| s@)
}

/// Lines `first..=last` of `body`, as the section of `heading`.
fn cut_section<'a>(
    body: &'a str,
    tree: &HeadingTree,
    first: usize,
    last: usize,
    heading: Option<usize>,
) -> (r: Section<'a>)
    requires
        tree.wf(),
        tree.bytes() == encode_utf8(body@),
    ensures
        r@ == section_at(body@, first as int, last as int, node(heading)),
{
    let range = tree.lines().byte_range(first, last);
    proof {
        encode_utf8_valid_utf8(body@);
        lemma_range(encode_utf8(body@), first as int, last as int);
    }
    Section {
        text: slice(body, range.start, range.end),
        byte_start: range.start,
        line_start: first,
        line_end: last,
        heading,
    }
}

/// The sections of `body`, whose headings are those of `tree`. A preamble of
/// blank lines is left out, so that the first section starts with its heading.
pub fn split_sections<'a>(body: &'a str, tree: &HeadingTree) -> (r: Vec<Section<'a>>)
    requires
        tree.wf(),
        tree.bytes() == encode_utf8(body@),
    ensures
        section_views(r@) == sections_of(body@, tree@),
{
    let mut sections: Vec<Section<'a>> = Vec::new();
    let last: usize = tree.preamble_end();
    let headings = tree.headings();
    if last > 0 {
        let preamble = cut_section(body, tree, 1, last, None);
        proof {
            lemma_byte_len_bounds(trim(preamble.text@));
        }
        if trimmed_len(preamble.text) > 0 {
            sections.push(preamble);
        }
    }
    let ghost start = preamble_of(body@, tree@);
    assert(section_views(sections@) =~= start);
    let mut i: usize = 0;
    while i < headings.len()
        invariant
            i <= headings@.len(),
            tree.wf(),
            tree.bytes() == encode_utf8(body@),
            heading_views(headings@) == tree@,
            section_views(sections@) == start + Seq::new(
                i as nat,
                |k: int| section_of(body@, tree@, k),
            ),
        decreases headings@.len() - i,
    {
        let ghost before = section_views(sections@);
        assert(tree@[i as int] == headings@[i as int]@);
        let section = cut_section(
            body,
            tree,
            headings[i].line,
            headings[i].section_end,
            Some(i),
        );
        sections.push(section);
        i = i + 1;
        proof {
            assert(section_views(sections@) =~= before.push(section@));
            assert(section_views(sections@) =~= start + Seq::new(
                i as nat,
                |k: int| section_of(body@, tree@, k),
            ));
        }
    }
    assert(section_views(sections@) =~= sections_of(body@, tree@));
    sections
}

/// A piece of the body on its way to be a chunk.
pub struct RawChunk {
    /// Its text.
    pub text: String,
    /// Its first line.
    pub line_start: usize,
    /// Its last line.
    pub line_end: usize,
    /// The heading whose path is put before it.
    pub breadcrumb: Option<usize>,
    /// The section it is attributed to.
    pub section: SectionId,
}

impl View for RawChunk {
    type V = RawView;

    open spec fn view(&self) -> RawView {
        RawView {
            text: self.text@,
            line_start: self.line_start as int,
            line_end: self.line_end as int,
            breadcrumb: node(self.breadcrumb),
            section: self.section,
        }
    }
}

/// The views of a list of raw chunks.
pub open spec fn raw_views(raws: Seq<RawChunk>) -> Seq<RawView> {
    raws.map_values(|r: RawChunk| r@)
}

/// The view of a raw chunk that may be there.
pub open spec fn raw_view(raw: Option<RawChunk>) -> Option<RawView> {
    match raw {
        Some(raw) => Some(raw@),
        None => None,
    }
}

/// Whether `raw` speaks of the first `n` headings only.
pub open spec fn raw_in(raw: RawView, n: nat) -> bool {
    in_tree(raw.breadcrumb, n) && section_in(raw.section, n)
}

/// Whether all of `raws` speak of the first `n` headings only.
pub open spec fn raws_in(raws: Seq<RawView>, n: nat) -> bool {
    forall|i: int| 0 <= i < raws.len() ==> raw_in(#[trigger] raws[i], n)
}

impl RawChunk {
    /// Adds another piece. `breadcrumb` and `section` are what that piece would
    /// have as a chunk of its own; the chunk keeps what both have in common.
    pub fn append(
        &mut self,
        text: &str,
        line_end: usize,
        breadcrumb: Option<usize>,
        section: SectionId,
        tree: &HeadingTree,
    )
        requires
            tree.wf(),
            raw_in(old(self)@, tree@.len()),
            in_tree(node(breadcrumb), tree@.len()),
            section_in(section, tree@.len()),
        ensures
            final(self)@ == appended(
                tree@,
                old(self)@,
                (RawView {
                    text: text@,
                    line_start: line_end as int,
                    line_end: line_end as int,
                    breadcrumb: node(breadcrumb),
                    section,
                }),
            ),
            raw_in(final(self)@, tree@.len()),
    {
        proof {
            reveal_strlit("\n\n");
            assert("\n\n"@ =~= blank_line());
        }
        self.text.append("\n\n");
        self.text.append(text);
        self.line_end = line_end;
        self.breadcrumb = tree.common_ancestor(self.breadcrumb, breadcrumb);
        self.section = self.section.merge(section, tree);
    }
}

/// Whether `a` and `b`, put together with a blank line between them, have a size
/// of at most `limit`.
fn fit_together(a: &str, b: &str, limit: usize) -> (r: bool)
    ensures
        r == fits(a@, b@, limit as nat),
{
    trimmed_len(with_blank_line(a, b).as_str()) <= limit
}

/// The characters that are kept free for the heading path before a chunk of at
/// most `max_chunk_size` bytes, with the blank line behind it: a quarter of the
/// chunk, and no more than [`MAX_HEADING_PATH_CHARS`].
pub fn heading_path_budget(max_chunk_size: usize) -> (r: usize)
    ensures
        r == path_budget(max_chunk_size),
{
    if max_chunk_size / 4 < MAX_HEADING_PATH_CHARS {
        max_chunk_size / 4
    } else {
        MAX_HEADING_PATH_CHARS
    }
}

/// The heading path that is put before a chunk: its texts with `" > "` between
/// them, cut to `budget_chars` characters. `None` if there is nothing to put
/// there.
pub fn format_heading_path(path: &Vec<String>, budget_chars: usize) -> (r: Option<String>)
    ensures
        (match r {
            Some(text) => Some(text@),
            None => None,
        }) == path_prefix(views(path@), budget_chars as nat),
{
    if path.len() == 0 || budget_chars == 0 {
        return None;
    }
    proof {
        reveal_strlit(" > ");
        assert(" > "@ =~= seq![' ', '>', ' ']);
    }
    let text = joined(path, " > ");
    let chars = crate::text::chars_of(text.as_str());
    if chars.len() <= budget_chars {
        Some(text)
    } else {
        proof {
            assert(chars@.subrange(0, budget_chars as int) =~= text@.take(budget_chars as int));
        }
        Some(text_of(&chars, 0, budget_chars))
    }
}

/// The views of the fragments of a section.
pub open spec fn fragment_views(fragments: Seq<(usize, String)>) -> Seq<FragmentView> {
    fragments.map_values(|f: (usize, String)| (f.0, f.1@))
}

/// Whether all of `fragments` lie in a text of `len` bytes.
pub open spec fn fragments_fit(fragments: Seq<FragmentView>, len: nat) -> bool {
    forall|k: int|
        0 <= k < fragments.len() ==> (#[trigger] fragments[k]).0 + byte_len(fragments[k].1) <= len
}

/// Whether `section` speaks of the first `n` headings only.
pub open spec fn section_known(section: SectionView, n: nat) -> bool {
    in_tree(section.heading, n)
}

/// Puts `piece` behind `chunks`, or gives it back if it is too small to be a
/// chunk.
fn place_piece(chunks: &mut Vec<RawChunk>, piece: RawChunk) -> (r: Option<RawChunk>)
    ensures
        raw_views(final(chunks)@) == placed_piece(raw_views(old(chunks)@), piece@).chunks,
        raw_view(r) == placed_piece(raw_views(old(chunks)@), piece@).pending,
{
    if trimmed_len(piece.text.as_str()) < MIN_MERGE_SIZE {
        Some(piece)
    } else {
        let ghost before = raw_views(chunks@);
        let ghost view = piece@;
        chunks.push(piece);
        assert(raw_views(chunks@) =~= before.push(view));
        None
    }
}

/// What the pieces of `section` are attributed to.
fn section_id(section: &Section) -> (r: SectionId)
    ensures
        r == id_of(section@),
{
    match section.heading {
        Some(i) => SectionId::Heading(i),
        None => SectionId::Preamble,
    }
}

/// The heading whose path is put before a text that starts with the heading of
/// `section`.
fn leading_breadcrumb(tree: &HeadingTree, section: &Section) -> (r: Option<usize>)
    requires
        tree.wf(),
        section_known(section@, tree@.len()),
    ensures
        node(r) == leading(tree@, section@),
        in_tree(node(r), tree@.len()),
{
    match section.heading {
        Some(i) => {
            let headings = tree.headings();
            proof {
                assert(tree@[i as int] == headings@[i as int]@);
                tree.lemma_wf();
                lemma_parent(tree@, line_count(tree.bytes()), i as int);
            }
            headings[i].parent
        },
        None => None,
    }
}

/// Fragment `k` of `section` as a piece.
fn cut_piece(tree: &HeadingTree, section: &Section, k: usize, fragment: &(usize, String)) -> (r:
    RawChunk)
    requires
        tree.wf(),
        section_known(section@, tree@.len()),
        section.byte_start + fragment.0 + byte_len(fragment.1@) <= usize::MAX,
    ensures
        r@ == fragment_piece(
            tree.bytes(),
            tree@,
            section@,
            k as int,
            (fragment.0, fragment.1@),
        ),
        raw_in(r@, tree@.len()),
{
    let start: usize = section.byte_start + fragment.0;
    let len: usize = fragment.1.as_str().as_bytes().len();
    let last: usize = if len == 0 {
        start
    } else {
        start + (len - 1)
    };
    let line_start: usize = tree.lines().line_of(start);
    let line_last: usize = tree.lines().line_of(last);
    let line_capped: usize = if line_last < section.line_end {
        line_last
    } else {
        section.line_end
    };
    RawChunk {
        text: fragment.1.clone(),
        line_start,
        line_end: if line_capped > line_start {
            line_capped
        } else {
            line_start
        },
        breadcrumb: if k == 0 {
            leading_breadcrumb(tree, section)
        } else {
            section.heading
        },
        section: section_id(section),
    }
}

/// One more piece of a split section.
fn split_piece(
    tree: &HeadingTree,
    limit: usize,
    chunks: &mut Vec<RawChunk>,
    pending: Option<RawChunk>,
    piece: RawChunk,
) -> (r: Option<RawChunk>)
    requires
        tree.wf(),
        raws_in(raw_views(old(chunks)@), tree@.len()),
        pending matches Some(p) ==> raw_in(p@, tree@.len()),
        raw_in(piece@, tree@.len()),
    ensures
        raw_views(final(chunks)@) == split_step(
            tree@,
            limit as nat,
            (SplitView { chunks: raw_views(old(chunks)@), pending: raw_view(pending) }),
            piece@,
        ).chunks,
        raw_view(r) == split_step(
            tree@,
            limit as nat,
            (SplitView { chunks: raw_views(old(chunks)@), pending: raw_view(pending) }),
            piece@,
        ).pending,
        raws_in(raw_views(final(chunks)@), tree@.len()),
        r matches Some(p) ==> raw_in(p@, tree@.len()),
{
    let ghost before = raw_views(chunks@);
    let ghost piece_view = piece@;
    match pending {
        Some(pending) => {
            let ghost pending_view = pending@;
            let pending_size: usize = trimmed_len(pending.text.as_str());
            if pending_size < MIN_MERGE_SIZE || fit_together(
                pending.text.as_str(),
                piece.text.as_str(),
                limit,
            ) {
                let mut whole = pending;
                whole.append(
                    piece.text.as_str(),
                    piece.line_end,
                    piece.breadcrumb,
                    piece.section,
                    tree,
                );
                assert(whole@ == appended(tree@, pending_view, piece_view));
                place_piece(chunks, whole)
            } else {
                chunks.push(pending);
                assert(raw_views(chunks@) =~= before.push(pending_view));
                place_piece(chunks, piece)
            }
        },
        None => place_piece(chunks, piece),
    }
}

/// Puts the fragments of `section` behind `chunks`. Small fragments are put
/// together with their neighbours.
fn split_section(
    tree: &HeadingTree,
    limit: usize,
    isolate: bool,
    chunks: &mut Vec<RawChunk>,
    section: &Section,
    fragments: &Vec<(usize, String)>,
)
    requires
        tree.wf(),
        raws_in(raw_views(old(chunks)@), tree@.len()),
        section_known(section@, tree@.len()),
        section.byte_start + byte_len(section.text@) <= usize::MAX,
        fragments_fit(fragment_views(fragments@), byte_len(section.text@)),
    ensures
        raw_views(final(chunks)@) == split_done(
            tree@,
            limit as nat,
            isolate,
            split_all(
                tree@,
                limit as nat,
                raw_views(old(chunks)@),
                fragment_pieces(tree.bytes(), tree@, section@, fragment_views(fragments@)),
            ),
        ),
        raws_in(raw_views(final(chunks)@), tree@.len()),
{
    let ghost start = raw_views(chunks@);
    let ghost all = fragment_views(fragments@);
    let ghost pieces = fragment_pieces(tree.bytes(), tree@, section@, all);
    let mut pending: Option<RawChunk> = None;
    let mut k: usize = 0;
    assert(pieces.take(0) =~= seq![]);
    while k < fragments.len()
        invariant
            k <= fragments@.len(),
            tree.wf(),
            section_known(section@, tree@.len()),
            section.byte_start + byte_len(section.text@) <= usize::MAX,
            all == fragment_views(fragments@),
            fragments_fit(all, byte_len(section.text@)),
            pieces == fragment_pieces(tree.bytes(), tree@, section@, all),
            raw_views(chunks@) == split_all(
                tree@,
                limit as nat,
                start,
                pieces.take(k as int),
            ).chunks,
            raw_view(pending) == split_all(
                tree@,
                limit as nat,
                start,
                pieces.take(k as int),
            ).pending,
            raws_in(raw_views(chunks@), tree@.len()),
            pending matches Some(p) ==> raw_in(p@, tree@.len()),
        decreases fragments@.len() - k,
    {
        proof {
            assert(all[k as int] == (fragments@[k as int].0, fragments@[k as int].1@));
            assert(pieces.take(k + 1).drop_last() =~= pieces.take(k as int));
            assert(pieces.take(k + 1).last() == pieces[k as int]);
        }
        let piece = cut_piece(tree, section, k, &fragments[k]);
        pending = split_piece(tree, limit, chunks, pending, piece);
        k = k + 1;
    }
    assert(pieces.take(pieces.len() as int) =~= pieces);
    if let Some(tail) = pending {
        let ghost before = raw_views(chunks@);
        let ghost tail_view = tail@;
        let n: usize = chunks.len();
        let mut taken = false;
        if n > 0 {
            assert(before.last() == chunks@.last()@);
            let same = chunks[n - 1].section == tail.section;
            taken = (same || !isolate) && fit_together(
                chunks[n - 1].text.as_str(),
                tail.text.as_str(),
                limit,
            );
        }
        if taken {
            let mut last = chunks.pop().unwrap();
            let ghost last_view = last@;
            assert(raw_in(before[n - 1], tree@.len()));
            last.append(
                tail.text.as_str(),
                tail.line_end,
                tail.breadcrumb,
                tail.section,
                tree,
            );
            assert(last@ == appended(tree@, last_view, tail_view));
            assert(raw_views(chunks@) =~= before.drop_last());
            let ghost fewer = raw_views(chunks@);
            let ghost grown = last@;
            chunks.push(last);
            assert(raw_views(chunks@) =~= fewer.push(grown));
        } else {
            chunks.push(tail);
            assert(raw_views(chunks@) =~= before.push(tail_view));
        }
    }
}

/// The views of the fragments of all sections.
pub open spec fn all_fragment_views(fragments: Seq<Vec<(usize, String)>>) -> Seq<Seq<FragmentView>> {
    fragments.map_values(|f: Vec<(usize, String)>| fragment_views(f@))
}

/// Whether there are fragments for each of `sections`, and they lie in it.
pub open spec fn all_fragments_fit(
    sections: Seq<SectionView>,
    fragments: Seq<Seq<FragmentView>>,
) -> bool {
    &&& fragments.len() == sections.len()
    &&& forall|i: int|
        0 <= i < sections.len() ==> fragments_fit(
            #[trigger] fragments[i],
            byte_len(sections[i].text),
        )
}

/// What each section of a body is like.
proof fn lemma_section(body: Seq<char>, headings: Seq<HeadingView>, i: int)
    requires
        0 <= i < sections_of(body, headings).len(),
    ensures
        section_known(sections_of(body, headings)[i], headings.len()),
        0 <= sections_of(body, headings)[i].byte_start,
        sections_of(body, headings)[i].byte_start + byte_len(sections_of(body, headings)[i].text)
            <= byte_len(body),
{
    let bytes = encode_utf8(body);
    let section = sections_of(body, headings)[i];
    encode_utf8_valid_utf8(body);
    lemma_range(bytes, section.line_start, section.line_end);
    lemma_byte_slice(
        body,
        range_start(bytes, section.line_start),
        range_end(bytes, section.line_start, section.line_end),
    );
}

/// One more section, behind `chunks` and the chunk that it may join.
fn merge_section(
    tree: &HeadingTree,
    config: &ChunkingConfig,
    chunks: &mut Vec<RawChunk>,
    current: Option<RawChunk>,
    section: &Section,
    fragments: &Vec<(usize, String)>,
) -> (r: Option<RawChunk>)
    requires
        tree.wf(),
        raws_in(raw_views(old(chunks)@), tree@.len()),
        current matches Some(c) ==> raw_in(c@, tree@.len()),
        section_known(section@, tree@.len()),
        section.byte_start + byte_len(section.text@) <= usize::MAX,
        fragments_fit(fragment_views(fragments@), byte_len(section.text@)),
    ensures
        raw_views(final(chunks)@) == merge_step(
            tree.bytes(),
            tree@,
            *config,
            (MergeView { chunks: raw_views(old(chunks)@), current: raw_view(current) }),
            section@,
            fragment_views(fragments@),
        ).chunks,
        raw_view(r) == merge_step(
            tree.bytes(),
            tree@,
            *config,
            (MergeView { chunks: raw_views(old(chunks)@), current: raw_view(current) }),
            section@,
            fragment_views(fragments@),
        ).current,
        raws_in(raw_views(final(chunks)@), tree@.len()),
        r matches Some(c) ==> raw_in(c@, tree@.len()),
{
    let reserved: usize = if config.prepend_heading_path {
        heading_path_budget(config.max_chunk_size)
    } else {
        0
    };
    let split_above: usize = config.max_chunk_size - reserved;
    let target: usize = config.target();
    let merge_up_to: usize = if target > reserved {
        target - reserved
    } else {
        0
    };
    let ghost before = raw_views(chunks@);
    let section_size: usize = trimmed_len(section.text);
    if section_size > split_above {
        if let Some(chunk) = current {
            let ghost view = chunk@;
            chunks.push(chunk);
            assert(raw_views(chunks@) =~= before.push(view));
        }
        split_section(tree, split_above, config.heading_metadata, chunks, section, fragments);
        return None;
    }
    let breadcrumb = leading_breadcrumb(tree, section);
    let id = section_id(section);
    if let Some(chunk) = current {
        let ghost view = chunk@;
        if !config.heading_metadata && fit_together(
            chunk.text.as_str(),
            section.text,
            merge_up_to,
        ) {
            let mut grown = chunk;
            grown.append(section.text, section.line_end, breadcrumb, id, tree);
            assert(grown@ == appended(tree@, view, whole(tree@, section@)));
            return Some(grown);
        }
        chunks.push(chunk);
        assert(raw_views(chunks@) =~= before.push(view));
    }
    Some(
        RawChunk {
            text: section.text.to_string(),
            line_start: section.line_start,
            line_end: section.line_end,
            breadcrumb,
            section: id,
        },
    )
}

/// The raw chunks of `body`, whose headings are those of `tree`, if `fragments`
/// are the fragments of its sections.
fn merge_sections(
    body: &str,
    tree: &HeadingTree,
    config: &ChunkingConfig,
    sections: &Vec<Section>,
    fragments: &Vec<Vec<(usize, String)>>,
) -> (r: Vec<RawChunk>)
    requires
        tree.wf(),
        tree.bytes() == encode_utf8(body@),
        section_views(sections@) == sections_of(body@, tree@),
        all_fragments_fit(sections_of(body@, tree@), all_fragment_views(fragments@)),
    ensures
        raw_views(r@) == raw_chunks(body@, tree@, *config, all_fragment_views(fragments@)),
        raws_in(raw_views(r@), tree@.len()),
{
    let ghost all = sections_of(body@, tree@);
    let ghost pieces = all_fragment_views(fragments@);
    let ghost bytes = tree.bytes();
    let body_len: usize = body.as_bytes().len();
    let mut chunks: Vec<RawChunk> = Vec::new();
    let mut current: Option<RawChunk> = None;
    let mut i: usize = 0;
    proof {
        assert(all.take(0) =~= seq![]);
        assert(raw_views(chunks@) =~= seq![]);
    }
    while i < sections.len()
        invariant
            i <= sections@.len(),
            tree.wf(),
            bytes == tree.bytes(),
            bytes == encode_utf8(body@),
            body_len == byte_len(body@),
            all == sections_of(body@, tree@),
            section_views(sections@) == all,
            pieces == all_fragment_views(fragments@),
            all_fragments_fit(all, pieces),
            raw_views(chunks@) == merge_all(
                bytes,
                tree@,
                *config,
                all.take(i as int),
                pieces,
            ).chunks,
            raw_view(current) == merge_all(
                bytes,
                tree@,
                *config,
                all.take(i as int),
                pieces,
            ).current,
            raws_in(raw_views(chunks@), tree@.len()),
            current matches Some(c) ==> raw_in(c@, tree@.len()),
        decreases sections@.len() - i,
    {
        proof {
            lemma_section(body@, tree@, i as int);
            assert(all[i as int] == sections@[i as int]@);
            assert(pieces[i as int] == fragment_views(fragments@[i as int]@));
            assert(all.take(i + 1).drop_last() =~= all.take(i as int));
            assert(all.take(i + 1).last() == all[i as int]);
        }
        current = merge_section(tree, config, &mut chunks, current, &sections[i], &fragments[i]);
        i = i + 1;
    }
    assert(all.take(all.len() as int) =~= all);
    if let Some(chunk) = current {
        let ghost before = raw_views(chunks@);
        let ghost view = chunk@;
        chunks.push(chunk);
        assert(raw_views(chunks@) =~= before.push(view));
    }
    chunks
}

/// A chunk of a document.
pub struct Chunk {
    /// Its text, with what is put before it.
    pub text: String,
    /// Its number, from 0.
    pub index: usize,
    /// The line of the body it starts on.
    pub line_start: usize,
    /// The line of the body it ends on.
    pub line_end: usize,
    /// The heading texts from the top of the hierarchy down to the section that
    /// the chunk is attributed to: the deepest heading whose subtree holds all of
    /// it. Empty for the preamble and the whole body.
    pub heading_path: Vec<String>,
    /// The level of that heading, 0 without one. A level may be left out in a
    /// hierarchy, so it need not be the length of the path.
    pub heading_level: u8,
    /// The first line of that section: of the heading's subtree, the preamble or
    /// the whole body.
    pub section_line_start: usize,
    /// The last line of that section.
    pub section_line_end: usize,
}

impl View for Chunk {
    type V = ChunkView;

    open spec fn view(&self) -> ChunkView {
        ChunkView {
            text: self.text@,
            index: self.index as int,
            line_start: self.line_start as int,
            line_end: self.line_end as int,
            heading_path: views(self.heading_path@),
            heading_level: self.heading_level,
            section_line_start: self.section_line_start as int,
            section_line_end: self.section_line_end as int,
        }
    }
}

/// The views of a list of chunks.
pub open spec fn chunk_views(chunks: Seq<Chunk>) -> Seq<ChunkView> {
    chunks.map_values(|c: Chunk| c@)
}

/// The view of a description that may be there.
pub open spec fn description_view(description: Option<&str>) -> Option<Seq<char>> {
    match description {
        Some(text) => Some(text@),
        None => None,
    }
}

/// `first`, a blank line and `second`.
fn with_blank_line(first: &str, second: &str) -> (r: String)
    ensures
        r@ == first@ + blank_line() + second@,
{
    proof {
        reveal_strlit("\n\n");
        assert("\n\n"@ =~= blank_line());
    }
    let mut r = first.to_string();
    r.append("\n\n");
    r.append(second);
    r
}

/// Raw chunk number `index`, finished.
fn finish_chunk(
    tree: &HeadingTree,
    config: &ChunkingConfig,
    description: Option<&str>,
    index: usize,
    raw: &RawChunk,
) -> (r: Chunk)
    requires
        tree.wf(),
        raw_in(raw@, tree@.len()),
    ensures
        r@ == finished(
            tree@,
            line_count(tree.bytes()),
            *config,
            description_view(description),
            index as int,
            raw@,
        ),
{
    let mut text = raw.text.clone();
    if config.prepend_description {
        if let Some(description) = description {
            text = with_blank_line(description, text.as_str());
        }
    }
    if config.prepend_heading_path {
        let reserved: usize = heading_path_budget(config.max_chunk_size);
        let budget: usize = if reserved > 2 {
            reserved - 2
        } else {
            0
        };
        let path = tree.path(raw.breadcrumb);
        if let Some(prefix) = format_heading_path(&path, budget) {
            text = with_blank_line(prefix.as_str(), text.as_str());
        }
    }
    let range = raw.section.line_range(tree);
    Chunk {
        text,
        index,
        line_start: raw.line_start,
        line_end: raw.line_end,
        heading_path: raw.section.path(tree),
        heading_level: raw.section.level(tree),
        section_line_start: range.0,
        section_line_end: range.1,
    }
}

/// The chunks of `body`, if its headings are those of `tree`, and `fragments`
/// are the fragments of its sections, in their order. The fragments of a section
/// that is not split are not looked at.
pub fn assemble_chunks(
    body: &str,
    description: Option<&str>,
    config: &ChunkingConfig,
    tree: &HeadingTree,
    fragments: &Vec<Vec<(usize, String)>>,
) -> (r: Vec<Chunk>)
    requires
        tree.wf(),
        tree.bytes() == encode_utf8(body@),
        all_fragments_fit(sections_of(body@, tree@), all_fragment_views(fragments@)),
    ensures
        chunk_views(r@) == chunks_of(
            body@,
            description_view(description),
            *config,
            tree@,
            all_fragment_views(fragments@),
        ),
{
    let sections = split_sections(body, tree);
    let raws = merge_sections(body, tree, config, &sections, fragments);
    let ghost views = raw_views(raws@);
    let mut chunks: Vec<Chunk> = Vec::new();
    let mut i: usize = 0;
    while i < raws.len()
        invariant
            i <= raws@.len(),
            tree.wf(),
            views == raw_views(raws@),
            raws_in(views, tree@.len()),
            chunks@.len() == i,
            forall|k: int|
                0 <= k < i ==> (#[trigger] chunks@[k])@ == finished(
                    tree@,
                    line_count(tree.bytes()),
                    *config,
                    description_view(description),
                    k,
                    views[k],
                ),
        decreases raws@.len() - i,
    {
        assert(views[i as int] == raws@[i as int]@);
        chunks.push(finish_chunk(tree, config, description, i, &raws[i]));
        i = i + 1;
    }
    assert(chunk_views(chunks@) =~= chunks_of(
        body@,
        description_view(description),
        *config,
        tree@,
        all_fragment_views(fragments@),
    ));
    chunks
}

/// The texts of a list of fragments.
pub open spec fn fragment_texts(fragments: Seq<FragmentView>) -> Seq<Seq<char>> {
    fragments.map_values(|f: FragmentView| f.1)
}

/// Whether `fragments` are the pieces of `text` in their order: each has at most
/// `max` characters, does not end with whitespace, stands in `text` where it says
/// it does, and starts behind the one before it. Nothing of `text` is left out
/// but whitespace.
pub open spec fn pieces_of(text: Seq<char>, max: nat, fragments: Seq<FragmentView>) -> bool {
    &&& fragments_fit(fragments, byte_len(text))
    &&& forall|k: int|
        0 <= k < fragments.len() ==> 0 < (#[trigger] fragments[k]).1.len() <= max && !whitespace(
            fragments[k].1.last(),
        ) && encode_utf8(fragments[k].1) == encode_utf8(text).subrange(
            fragments[k].0 as int,
            fragments[k].0 + byte_len(fragments[k].1),
        )
    &&& forall|j: int, k: int|
        0 <= j < k < fragments.len() ==> (#[trigger] fragments[j]).0 + byte_len(fragments[j].1)
            <= (#[trigger] fragments[k]).0
    &&& dense(join(fragment_texts(fragments), seq![])) == dense(text)
}

/// The fragments that `text_splitter` splits `text` into, if a fragment may have
/// `max` characters.
pub uninterp spec fn markdown_fragments(text: Seq<char>, max: usize) -> Seq<FragmentView>;

/// `text_splitter::MarkdownSplitter::new(max).chunk_indices(text)`: the
/// fragments of `text`, cut at markdown elements, each with the byte it starts
/// at. The splitter gives the same fragments for the same text. They are pieces
/// of the text in their order, each of 1 to `max` characters: where no markdown
/// element is small enough, the splitter cuts between characters. It goes through
/// the text without gaps and trims each piece, at its end of all whitespace, so
/// the fragments hold all of the text but whitespace. A maximum of 0 is left out:
/// the splitter subtracts 1 from it.
#[verifier::external_body]
fn split_markdown(text: &str, max: usize) -> (r: Vec<(usize, String)>)
    requires
        max > 0,
    ensures
        fragment_views(r@) == markdown_fragments(text@, max),
        pieces_of(text@, max as nat, fragment_views(r@)),
{
    let splitter = MarkdownSplitter::new(max);
    splitter.chunk_indices(text).map(|(offset, part)| (offset, part.to_string())).collect()
}

/// The headings of `body`.
pub open spec fn headings_of(body: Seq<char>) -> Seq<HeadingView> {
    outline(
        scanned(encode_utf8(body), markdown_events(body, PARSER_OPTIONS)).found,
        line_count(encode_utf8(body)),
    )
}

/// The fragments of the sections of `body`. A section that is not split has none.
pub open spec fn fragments_of(
    body: Seq<char>,
    headings: Seq<HeadingView>,
    config: ChunkingConfig,
) -> Seq<Seq<FragmentView>> {
    let sections = sections_of(body, headings);
    Seq::new(
        sections.len(),
        |i: int|
            if oversized(config, sections[i]) {
                markdown_fragments(sections[i].text, split_limit(config) as usize)
            } else {
                seq![]
            },
    )
}

/// A body of whitespace alone has no sections if it has no headings.
proof fn lemma_blank_body(body: Seq<char>, headings: Seq<HeadingView>)
    requires
        trim(body).len() == 0,
        headings.len() == 0,
    ensures
        sections_of(body, headings).len() == 0,
{
    let bytes = encode_utf8(body);
    let count = line_count(bytes);
    lemma_line_starts(bytes);
    lemma_whole_slice(body);
    if count > 0 {
        assert(section_at(body, 1, count as int, None).text == body);
    }
}

/// The chunks of `body`. A body of whitespace alone has none.
///
/// Each chunk has the heading path it is nested under and the description of the
/// document put before it, as far as `config` asks for that. A maximum size of 0
/// has no meaning for a body with text.
pub fn chunk_markdown(body: &str, description: Option<&str>, config: &ChunkingConfig) -> (r: Vec<
    Chunk,
>)
    requires
        config.max_chunk_size > 0 || trim(body@).len() == 0,
    ensures
        trim(body@).len() == 0 ==> r@.len() == 0,
        chunk_views(r@) == chunks_of(
            body@,
            description_view(description),
            *config,
            headings_of(body@),
            fragments_of(body@, headings_of(body@), *config),
        ),
        consistent(
            body@,
            *config,
            headings_of(body@),
            fragments_of(body@, headings_of(body@), *config),
        ),
        well_covered(chunk_views(r@), line_count(encode_utf8(body@))),
        laid_out(
            body@,
            description_view(description),
            *config,
            headings_of(body@),
            fragments_of(body@, headings_of(body@), *config),
            chunk_views(r@),
        ),
        config.heading_metadata ==> all_stay_in_one_section(
            headings_of(body@),
            line_count(encode_utf8(body@)),
            chunk_views(r@),
        ),
{
    let tree = HeadingTree::parse(body);
    let sections = split_sections(body, &tree);
    let reserved: usize = if config.prepend_heading_path {
        heading_path_budget(config.max_chunk_size)
    } else {
        0
    };
    let limit: usize = config.max_chunk_size - reserved;
    let ghost all = sections_of(body@, tree@);
    proof {
        if trim(body@).len() == 0 {
            lemma_blank_body(body@, tree@);
        }
    }
    let mut fragments: Vec<Vec<(usize, String)>> = Vec::new();
    let mut i: usize = 0;
    while i < sections.len()
        invariant
            i <= sections@.len(),
            limit > 0 || sections@.len() == 0,
            limit == split_limit(*config),
            all == section_views(sections@),
            fragments@.len() == i,
            forall|k: int|
                0 <= k < i ==> #[trigger] fragment_views(fragments@[k]@) == (if oversized(
                    *config,
                    all[k],
                ) {
                    markdown_fragments(all[k].text, limit)
                } else {
                    seq![]
                }),
            forall|k: int|
                0 <= k < i ==> fragments_fit(
                    #[trigger] fragment_views(fragments@[k]@),
                    byte_len(all[k].text),
                ),
            forall|k: int|
                0 <= k < i && oversized(*config, all[k]) ==> pieces_of(
                    all[k].text,
                    limit as nat,
                    #[trigger] fragment_views(fragments@[k]@),
                ),
        decreases sections@.len() - i,
    {
        assert(all[i as int] == sections@[i as int]@);
        if trimmed_len(sections[i].text) > limit {
            fragments.push(split_markdown(sections[i].text, limit));
        } else {
            let none: Vec<(usize, String)> = Vec::new();
            assert(fragment_views(none@) =~= seq![]);
            fragments.push(none);
        }
        i = i + 1;
    }
    proof {
        let views = all_fragment_views(fragments@);
        assert forall|k: int| 0 <= k < all.len() implies fragments_fit(
            #[trigger] views[k],
            byte_len(all[k].text),
        ) by {
            assert(views[k] == fragment_views(fragments@[k]@));
        }
        assert(views =~= fragments_of(body@, tree@, *config));
        assert forall|k: int|
            0 <= k < views.len() && oversized(*config, all[k]) implies pieces_of(
            all[k].text,
            limit as nat,
            #[trigger] views[k],
        ) by {
            assert(views[k] == fragment_views(fragments@[k]@));
        }
        tree.lemma_wf();
        chunks_lie_in_their_sections(
            body@,
            description_view(description),
            *config,
            tree@,
            views,
        );
        chunks_are_laid_out(
            body@,
            description_view(description),
            *config,
            tree@,
            views,
        );
        if config.heading_metadata {
            isolated_chunks_are_attributed_exactly(
                body@,
                description_view(description),
                *config,
                tree@,
                views,
            );
        }
    }
    let chunks = assemble_chunks(body, description, config, &tree, &fragments);
    assert(chunk_views(chunks@).len() == chunks@.len());
    chunks
}

} // verus!
