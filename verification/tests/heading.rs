use gray_matter::engine::YAML;
use gray_matter::Matter;
use md_kb_rag::chunk::{chunk_markdown, Chunk};
use md_kb_rag::config::ChunkingConfig;
use md_kb_rag::frontmatter::body_line_offset;
use md_kb_rag::heading::HeadingTree;
use md_kb_rag::heading_text::{
    clean_heading_text, heading_prefix_key, normalize_heading_text, HEADING_KEY_SEPARATOR,
    MAX_HEADING_TEXT_CHARS, MAX_HEADING_TEXT_RAW_CHARS,
};
use md_kb_rag::lines::LineIndex;
use md_kb_rag::section::SectionId;

/// The body of a document, as the frontmatter parser returns it.
fn parse_body(content: &str) -> String {
    Matter::<YAML>::new().parse(content).content
}

/// An entry of a document's outline, with lines of the file.
struct OutlineEntry {
    heading_path: Vec<String>,
    level: u8,
    line_start: usize,
    line_end: usize,
}

fn outline(content: &str) -> Vec<OutlineEntry> {
    let tree = HeadingTree::parse(&parse_body(content));
    let offset = body_line_offset(content);
    let mut ids = Vec::new();
    if tree.preamble_end() > 0 {
        ids.push(SectionId::Preamble);
    }
    ids.extend((0..tree.headings().len()).map(SectionId::Heading));
    ids.into_iter()
        .map(|id| {
            let (first, last) = id.line_range(&tree);
            OutlineEntry {
                heading_path: id.path(&tree),
                level: id.level(&tree),
                line_start: offset + first,
                line_end: offset + last,
            }
        })
        .collect()
}

/// `(level, text, line, parent)` for every heading.
fn summary(body: &str) -> Vec<(u8, String, usize, Option<usize>)> {
    HeadingTree::parse(body)
        .headings()
        .iter()
        .map(|h| (h.level, h.text.clone(), h.line, h.parent))
        .collect()
}

fn h(
    level: u8,
    text: &str,
    line: usize,
    parent: Option<usize>,
) -> (u8, String, usize, Option<usize>) {
    (level, text.to_string(), line, parent)
}

// ── heading detection edge cases ────────────────────────────────────────

#[test]
fn atx_headings_nest_by_level_with_skipped_levels() {
    let body = "# Root\n\n#### Deep\n\ntext\n\n## Shallow\n\n### Leaf\n";
    assert_eq!(
        summary(body),
        vec![
            h(1, "Root", 1, None),
            h(4, "Deep", 3, Some(0)),
            h(2, "Shallow", 7, Some(0)),
            h(3, "Leaf", 9, Some(2)),
        ]
    );
    let tree = HeadingTree::parse(body);
    let ends: Vec<(usize, usize)> = tree
        .headings()
        .iter()
        .map(|h| (h.section_end, h.subtree_end))
        .collect();
    // The body ends in '\n', so it has a 10th (empty) line.
    assert_eq!(ends, vec![(2, 10), (6, 6), (8, 10), (10, 10)]);
    assert_eq!(tree.path(Some(3)), vec!["Root", "Shallow", "Leaf"]);
}

#[test]
fn backtick_and_tilde_fences_hide_headings() {
    let body =
        "# Real\n```\n# not one\n~~~\n# still not\n```\n~~~md\n# nor this\n~~~\n## After\n";
    assert_eq!(
        summary(body),
        vec![h(1, "Real", 1, None), h(2, "After", 10, Some(0))]
    );
}

#[test]
fn longer_fence_wrapping_a_shorter_one_stays_open() {
    // the inner ``` must not close the outer ````.
    let body = "# A\n````\n```\n# inside4\n```\n````\n## D\nbody\n";
    assert_eq!(
        summary(body),
        vec![h(1, "A", 1, None), h(2, "D", 7, Some(0))]
    );
}

#[test]
fn indented_code_block_is_not_a_heading() {
    let body = "Intro.\n\n    # code, not a heading\n\n# Real\n";
    assert_eq!(summary(body), vec![h(1, "Real", 5, None)]);
}

#[test]
fn up_to_three_spaces_of_indentation_is_still_a_heading() {
    let body = "   # Indented\nbody\n## Next\n";
    assert_eq!(
        summary(body),
        vec![h(1, "Indented", 1, None), h(2, "Next", 3, Some(0))]
    );
}

#[test]
fn hashtag_seven_hashes_and_escaped_hash_are_not_headings() {
    // `#hashtag` must not become a level-1 heading that
    // re-parents every later section.
    let body = "# A\n## B\n#hashtag line\nmore\n####### seven\n\\# escaped\n## C\n";
    assert_eq!(
        summary(body),
        vec![
            h(1, "A", 1, None),
            h(2, "B", 2, Some(0)),
            h(2, "C", 7, Some(0))
        ]
    );
}

#[test]
fn closing_hash_sequence_is_not_part_of_the_text() {
    let body = "## Title ##\n# Foo #bar\n### Trailing ###   \n";
    assert_eq!(
        summary(body),
        vec![
            h(2, "Title", 1, None),
            h(1, "Foo #bar", 2, None),
            h(3, "Trailing", 3, Some(1)),
        ]
    );
}

#[test]
fn setext_headings_are_headings_at_their_text_line() {
    let body = "Title\n=====\n\nIntro.\n\nSub part\nsecond line\n---\n\nbody\n";
    assert_eq!(
        summary(body),
        vec![
            h(1, "Title", 1, None),
            h(2, "Sub part second line", 6, Some(0))
        ]
    );
}

#[test]
fn headings_inside_blockquotes_lists_and_html_blocks_are_not_boundaries() {
    let body = "# Top\n\n> # Quoted\n\n- # Listed\n\n1. ## Numbered\n\n<div>\n# in html\n</div>\n\n## Next\n";
    assert_eq!(
        summary(body),
        vec![h(1, "Top", 1, None), h(2, "Next", 13, Some(0))]
    );
}

#[test]
fn leading_whitespace_only_line_does_not_hide_the_first_heading() {
    let body = "  \n# A\nbody\n## B\nx\n";
    assert_eq!(
        summary(body),
        vec![h(1, "A", 2, None), h(2, "B", 4, Some(0))]
    );
}

#[test]
fn heading_text_is_rendered_plain_text_with_collapsed_whitespace() {
    let body = "## The `code()`  *emph* **strong** ~~gone~~ [link](x.md) ![alt](i.png) <b>html</b> &amp; \\*x\\*\n#   Spaced    out   \n";
    assert_eq!(
        summary(body),
        vec![
            h(
                2,
                "The code() emph strong gone link alt html & *x*",
                1,
                None
            ),
            h(1, "Spaced out", 2, None),
        ]
    );
}

#[test]
fn empty_headings_are_ordinary_content() {
    let body = "# A\n#\n## B\n##   ##\ntext\n";
    assert_eq!(
        summary(body),
        vec![h(1, "A", 1, None), h(2, "B", 3, Some(0))]
    );
    assert_eq!(HeadingTree::parse(body).headings()[1].section_end, 6);
}

#[test]
fn same_text_headings_have_distinct_identities() {
    let body = "# R\n## X\n# R\n### C\n## C\n";
    let tree = HeadingTree::parse(body);
    assert_eq!(
        summary(body),
        vec![
            h(1, "R", 1, None),
            h(2, "X", 2, Some(0)),
            h(1, "R", 3, None),
            h(3, "C", 4, Some(2)),
            h(2, "C", 5, Some(2)),
        ]
    );
    assert_eq!(tree.common_ancestor(Some(1), Some(2)), None);
    assert_eq!(tree.common_ancestor(Some(3), Some(4)), Some(2));
    assert_eq!(tree.common_ancestor(Some(3), Some(3)), Some(3));
    assert_eq!(tree.common_ancestor(Some(2), Some(4)), Some(2));
    assert_eq!(tree.common_ancestor(None, Some(4)), None);
}

#[test]
fn normalize_heading_text_collapses_whitespace_and_folds_case() {
    assert_eq!(normalize_heading_text("Fire  Ball"), "fire ball");
    assert_eq!(normalize_heading_text("  Fireball  "), "fireball");
    assert_eq!(normalize_heading_text("FIREBALL"), "fireball");
    // Full Unicode case folding, not just `to_lowercase`.
    assert_eq!(
        normalize_heading_text("Straße"),
        normalize_heading_text("STRASSE")
    );
    // Already-collapsed heading text (as `HeadingTree::parse` stores it)
    // is a no-op other than lowercasing.
    let tree = HeadingTree::parse("## The `code()`  *emph*\n");
    assert_eq!(
        normalize_heading_text(&tree.headings()[0].text),
        "the code() emph"
    );
}

#[test]
fn invisible_format_characters_are_removed_from_heading_text() {
    // soft hyphens (PDF conversions), zero-width spaces, word joiners
    // and a BOM never change how a heading renders, so they are dropped
    // from its stored text and must not change what matches it.
    let tree =
        HeadingTree::parse("# Fire\u{ad}ball\n## Zero\u{200b}Width \u{feff}Joined\u{2060}\n");
    assert_eq!(tree.headings()[0].text, "Fireball");
    assert_eq!(tree.headings()[1].text, "ZeroWidth Joined");
    assert_eq!(
        heading_prefix_key(&[tree.headings()[0].text.as_str()]),
        heading_prefix_key(&["Fireball"])
    );
    assert_eq!(normalize_heading_text("Fire\u{ad}ball"), "fireball");
    for c in [
        '\u{ad}', '\u{200b}', '\u{200c}', '\u{200d}', '\u{2060}', '\u{feff}',
    ] {
        assert_eq!(
            normalize_heading_text(&format!("Fire{c}ball")),
            "fireball",
            "U+{:04X}",
            c as u32
        );
    }
    // An invisible character between words does not become a separator of
    // its own, and a heading of only invisible characters has no text.
    assert_eq!(normalize_heading_text("a \u{200b} b"), "a b");
    assert!(
        HeadingTree::parse("# \u{ad}\u{200b}\n")
            .headings()
            .is_empty()
    );

    // A BOM before frontmatter gray_matter did not recognize: the setext
    // heading it forms carries no BOM.
    let bom = HeadingTree::parse("\u{feff}---\ntitle: T\n---\n");
    assert_eq!(bom.headings()[0].text, "--- title: T");

    // The no-control-character guarantee still holds for anything a caller
    // passes.
    let messy = "\u{feff}a\u{1f}\u{ad}b\u{0}\u{200d}\tc\u{7f}";
    let normalized = normalize_heading_text(messy);
    assert_eq!(normalized, "a b c");
    assert!(!normalized.chars().any(|c| c.is_control()));
}

#[test]
fn rendering_format_characters_stay_in_stored_text_but_not_in_matching() {
    // joiners, direction marks and variation selectors change how a
    // heading renders, so its stored text keeps them; matching ignores them.
    let family = "Family 👨\u{200d}👩\u{200d}👧";
    let persian = "می\u{200c}خواهم";
    let body = format!(
        "# {family}\n## {persian}\n## Love ❤\u{fe0f}\n## a\u{200e}b\n# \u{200d}\u{fe0f}\n"
    );
    let tree = HeadingTree::parse(&body);
    let texts: Vec<&str> = tree.headings().iter().map(|h| h.text.as_str()).collect();
    assert_eq!(
        texts,
        vec![family, persian, "Love ❤\u{fe0f}", "a\u{200e}b"],
        "a heading of only format characters has no text"
    );
    assert_eq!(normalize_heading_text(family), "family 👨👩👧");
    assert_eq!(
        normalize_heading_text(persian),
        normalize_heading_text("میخواهم")
    );
    assert_eq!(
        heading_prefix_key(&["Love ❤\u{fe0f}"]),
        heading_prefix_key(&["love ❤"])
    );
    // A joiner-only word between spaces vanishes rather than leaving a
    // doubled space once matching removes it.
    assert_eq!(clean_heading_text("a \u{200d} b"), "a b");
    assert_eq!(normalize_heading_text("a \u{200d}\u{200e} b"), "a b");
    // The no-control-character guarantee holds with them kept.
    for text in texts {
        assert!(!text.chars().any(|c| c.is_control()), "{text:?}");
        assert_eq!(clean_heading_text(text), text, "idempotent");
    }
}

#[test]
fn capped_headings_match_across_folding_and_joiner_spellings() {
    // Folding lengthens `ß` to `ss`: a 150-char heading (under the cap)
    // must match a caller typing the 300-char folded spelling.
    let eszett = "ß".repeat(150);
    assert_eq!(clean_heading_text(&eszett), eszett);
    assert_eq!(
        normalize_heading_text(&eszett),
        normalize_heading_text(&"ss".repeat(150))
    );
    assert_eq!(
        normalize_heading_text(&eszett),
        normalize_heading_text(&"SS".repeat(150))
    );
    // Over the cap too, and the stored (capped) copy matches both.
    let long = format!("{}X", "ß".repeat(MAX_HEADING_TEXT_CHARS));
    let stored = clean_heading_text(&long);
    assert_eq!(stored, "ß".repeat(MAX_HEADING_TEXT_CHARS));
    let key = normalize_heading_text(&stored);
    assert_eq!(key.chars().count(), MAX_HEADING_TEXT_CHARS);
    assert_eq!(normalize_heading_text(&long), key);
    assert_eq!(
        normalize_heading_text(&format!("{}x", "SS".repeat(MAX_HEADING_TEXT_CHARS))),
        key
    );

    // Joiners don't count toward the cap, so a long run of ZWJ emoji is
    // cut after the same visible text whether or not the caller's copy
    // carries the joiners.
    let emoji = "👨\u{200d}👩 ".repeat(70);
    let stored = clean_heading_text(&emoji);
    assert!(stored.chars().count() > MAX_HEADING_TEXT_CHARS, "{stored}");
    assert_eq!(
        stored.chars().filter(|&c| c != '\u{200d}').count(),
        MAX_HEADING_TEXT_CHARS,
    );
    let plain = emoji.replace('\u{200d}', "");
    assert_eq!(
        normalize_heading_text(&stored),
        normalize_heading_text(&emoji)
    );
    assert_eq!(
        normalize_heading_text(&plain),
        normalize_heading_text(&emoji)
    );
    assert_eq!(clean_heading_text(&stored), stored, "idempotent");

    // A cut landing on a word that would keep only a joiner drops that word.
    let edge = format!("{} \u{200d}Y", "x".repeat(MAX_HEADING_TEXT_CHARS - 1));
    assert_eq!(
        clean_heading_text(&edge),
        "x".repeat(MAX_HEADING_TEXT_CHARS - 1)
    );

    // Padding with thousands of joiners stays bounded.
    let padded = format!("a{}", "\u{200d}".repeat(5000));
    assert!(clean_heading_text(&padded).chars().count() <= MAX_HEADING_TEXT_RAW_CHARS);
}

#[test]
fn heading_text_is_capped_on_a_char_boundary() {
    // a paragraph directly above `---` is a setext heading whose text
    // is the whole paragraph. A 2 KB one is stored capped.
    // 10 chars per word, so the cut lands right after a space.
    let word = "Paragrapé ";
    let paragraph = word.repeat(2000 / word.len() + 1);
    let body = format!("# Chapter\n\n{paragraph}\n---\n\n### Sub 1\n\nbody\n");
    let tree = HeadingTree::parse(&body);
    assert_eq!(tree.headings().len(), 3);
    let long = &tree.headings()[1];
    assert_eq!(long.level, 2);
    assert_eq!(long.text.chars().count(), MAX_HEADING_TEXT_CHARS - 1);
    assert!(
        !long.text.ends_with(' '),
        "the cut's trailing space is trimmed"
    );
    let full = clean_heading_text_uncapped(&paragraph);
    assert!(full.chars().count() > 1000);
    assert!(full.starts_with(&long.text));
    // Cleaning is idempotent, and a caller passing the full text matches
    // the stored heading.
    assert_eq!(clean_heading_text(&long.text), long.text);
    assert_eq!(
        normalize_heading_text(&full),
        normalize_heading_text(&long.text)
    );
    assert_eq!(
        heading_prefix_key(&["Chapter", full.as_str()]),
        heading_prefix_key(&["Chapter", long.text.as_str()])
    );
    // The cap reaches the outline and the chunk heading paths too.
    for entry in outline(&body) {
        for segment in &entry.heading_path {
            assert!(segment.chars().count() <= MAX_HEADING_TEXT_CHARS);
        }
    }
    let cfg = ChunkingConfig {
        max_chunk_size: 1500,
        target_chunk_size: Some(1000),
        prepend_description: false,
        prepend_heading_path: true,
        heading_metadata: true,
    };
    for chunk in chunk_markdown(&body, None, &cfg) {
        for segment in &chunk.heading_path {
            assert!(segment.chars().count() <= MAX_HEADING_TEXT_CHARS);
        }
    }

    // Exactly at the cap: untouched. Multi-byte text cuts on a char boundary.
    let exact = "x".repeat(MAX_HEADING_TEXT_CHARS);
    assert_eq!(clean_heading_text(&exact), exact);
    let wide = "ß".repeat(MAX_HEADING_TEXT_CHARS + 50);
    assert_eq!(
        clean_heading_text(&wide),
        "ß".repeat(MAX_HEADING_TEXT_CHARS)
    );
}

/// The whitespace collapse of [`clean_heading_text`] without the cap, to
/// compare a capped heading against its full text.
fn clean_heading_text_uncapped(s: &str) -> String {
    s.split_whitespace().collect::<Vec<_>>().join(" ")
}

#[test]
fn heading_keys_use_a_separator_heading_text_cannot_contain() {
    // A single heading spelled like a two-level path must not share a key.
    assert_ne!(
        heading_prefix_key(&["Input > Output"]),
        heading_prefix_key(&["Input", "Output"])
    );
    assert_eq!(
        heading_prefix_key(&["Input", "Output"]),
        format!("input{HEADING_KEY_SEPARATOR}output")
    );
    // Control characters (the separator included) collapse like whitespace,
    // in caller-supplied segments and in parsed heading text alike.
    assert_eq!(normalize_heading_text("a\u{1f}b\u{0}\tc"), "a b c");
    assert_eq!(
        heading_prefix_key(&["input\u{1f}output"]),
        heading_prefix_key(&["input output"])
    );
    let tree = HeadingTree::parse("# Input\u{1f}Output\n");
    assert_eq!(tree.headings()[0].text, "Input Output");
    // A heading whose only text is control characters has no text.
    assert!(HeadingTree::parse("# \u{1}\u{1f}\n").headings().is_empty());
}

// ── lone '\r' line endings ───────────────────────────────────────

#[test]
fn a_second_heading_on_the_same_newline_line_is_content() {
    // CommonMark ends a line at a lone '\r', so pulldown-cmark sees `# B`
    // as a heading on line 1 too. Treating it as a boundary would end A's
    // section before A's own line (an inverted range) and panic in
    // chunking.
    let body = "# A\r# B\nbody";
    assert_eq!(summary(body), vec![h(1, "A", 1, None)]);
    let tree = HeadingTree::parse(body);
    assert_eq!(
        (
            tree.headings()[0].section_end,
            tree.headings()[0].subtree_end
        ),
        (2, 2)
    );

    // A classic-Mac file is a single '\n'-line: one heading, one section.
    let mac = "# Title\rintro\r\r## Part\rtext\r";
    assert_eq!(summary(mac), vec![h(1, "Title", 1, None)]);

    for body in [body, mac] {
        let chunks = chunk_markdown(
            body,
            None,
            &ChunkingConfig {
                max_chunk_size: 60,
                target_chunk_size: Some(1),
                prepend_description: false,
                prepend_heading_path: true,
                heading_metadata: true,
            },
        );
        assert!(!chunks.is_empty());
        assert_chunk_ranges_valid(body, &chunks);
        assert_outline_ranges_valid(body);
    }
}

#[test]
fn line_index_byte_range_is_total() {
    let text = "ab\ncd\nef";
    let idx = LineIndex::new(text);
    // Inverted, zero and past-the-end requests clamp instead of panicking.
    assert_eq!(&text[idx.byte_range(2, 1)], "cd");
    assert_eq!(&text[idx.byte_range(0, 0)], "ab");
    assert_eq!(&text[idx.byte_range(3, 99)], "ef");
    assert_eq!(&text[idx.byte_range(99, 1)], "ef");
    assert_eq!(LineIndex::new("").byte_range(1, 1), 0..0);
}

fn assert_chunk_ranges_valid(body: &str, chunks: &[Chunk]) {
    let line_count = LineIndex::new(body).line_count();
    for c in chunks {
        assert!(
            1 <= c.section_line_start
                && c.section_line_start <= c.line_start
                && c.line_start <= c.line_end
                && c.line_end <= c.section_line_end
                && c.section_line_end <= line_count,
            "chunk {} lines {}-{} section {}-{} of {line_count}; body={body:?}",
            c.index,
            c.line_start,
            c.line_end,
            c.section_line_start,
            c.section_line_end
        );
    }
}

/// The `chunking.heading_metadata` invariant: no chunk crosses a
/// heading boundary. No chunk's line range contains a heading line other
/// than its own first line; every chunk lies inside one heading's own
/// section (and is attributed to exactly that heading, with its subtree
/// range) or inside the preamble; attribution is never `Root`.
fn assert_chunks_stay_within_one_section(
    body: &str,
    chunks: &[Chunk],
) {
    let tree = HeadingTree::parse(body);
    for c in chunks {
        let ctx = format!(
            "chunk {} lines {}-{} section {}-{} path {:?}; body={body:?}",
            c.index,
            c.line_start,
            c.line_end,
            c.section_line_start,
            c.section_line_end,
            c.heading_path
        );
        for h in tree.headings() {
            assert!(
                !(c.line_start < h.line && h.line <= c.line_end),
                "heading {:?} at line {} is inside a chunk; {ctx}",
                h.text,
                h.line
            );
        }
        if c.heading_level == 0 {
            assert!(c.heading_path.is_empty(), "{ctx}");
            assert_eq!(
                (c.section_line_start, c.section_line_end),
                (1, tree.preamble_end()),
                "a heading-less chunk must be attributed to the preamble, not Root; {ctx}"
            );
            assert!(c.line_end <= tree.preamble_end(), "{ctx}");
        } else {
            let (i, h) = tree
                .headings()
                .iter()
                .enumerate()
                .find(|(_, h)| h.line == c.section_line_start)
                .unwrap_or_else(|| panic!("no heading starts the chunk's section; {ctx}"));
            assert_eq!(h.level, c.heading_level, "{ctx}");
            assert_eq!(c.heading_path, tree.path(Some(i)), "{ctx}");
            assert_eq!(c.section_line_end, h.subtree_end, "{ctx}");
            assert!(
                h.line <= c.line_start && c.line_end <= h.section_end,
                "chunk must lie within its heading's own section {}-{}; {ctx}",
                h.line,
                h.section_end
            );
        }
    }
}

fn assert_outline_ranges_valid(content: &str) {
    for entry in outline(content) {
        assert!(
            entry.line_start <= entry.line_end,
            "outline entry {:?} has lines {}-{}; content={content:?}",
            entry.heading_path,
            entry.line_start,
            entry.line_end
        );
    }
}

/// Fuzz-style property test over random mixes of `\n`, `\r\n` and lone `\r`
/// line endings between heading, setext, fence, container and text lines,
/// with and without frontmatter: nothing panics, headings are strictly
/// increasing by line, and every heading, chunk and outline range is valid.
/// Deterministic (fixed-seed xorshift) so a failure reproduces.
#[test]
fn mixed_line_endings_never_panic_or_invert_ranges() {
    let pieces = [
        "# A",
        "## B",
        "### C",
        "#",
        "#tag",
        "text",
        "",
        "  ",
        "Setext",
        "===",
        "---",
        "```",
        "~~~",
        "> # quoted",
        "- # listed",
        "## B ##",
        "    # code",
    ];
    let endings = ["\n", "\r\n", "\r"];
    let frontmatters = ["", "---\ntitle: T\n---\n", "---\r\ntitle: T\r\n---\r\n"];
    let configs = [
        (7, None, true),
        (60, Some(1), true),
        (120, Some(40), false),
        (200, None, false),
        (1000, Some(300), true),
    ];

    let mut state: u64 = 0x9E37_79B9_7F4A_7C15;
    let mut next = move |bound: usize| {
        state ^= state << 13;
        state ^= state >> 7;
        state ^= state << 17;
        (state % bound as u64) as usize
    };

    for _ in 0..3000 {
        let mut content = frontmatters[next(frontmatters.len())].to_string();
        for _ in 0..next(14) {
            content.push_str(pieces[next(pieces.len())]);
            content.push_str(endings[next(endings.len())]);
        }
        if next(2) == 0 {
            content.push_str(pieces[next(pieces.len())]);
        }

        let body = parse_body(&content);
        let tree = HeadingTree::parse(&body);
        let line_count = tree.line_count();
        for pair in tree.headings().windows(2) {
            assert!(pair[0].line < pair[1].line, "content={content:?}");
        }
        for heading in tree.headings() {
            assert!(
                1 <= heading.line
                    && heading.line <= heading.section_end
                    && heading.section_end <= heading.subtree_end
                    && heading.subtree_end <= line_count,
                "{heading:?} of {line_count}; content={content:?}"
            );
        }
        assert!(tree.preamble_end() <= line_count);

        for (max, target, prepend) in configs {
            for heading_metadata in [false, true] {
                let cfg = ChunkingConfig {
                    max_chunk_size: max,
                    target_chunk_size: target,
                    prepend_description: true,
                    prepend_heading_path: prepend,
                    heading_metadata,
                };
                let chunks = chunk_markdown(&body, Some("desc"), &cfg);
                assert_chunk_ranges_valid(&body, &chunks);
                for c in &chunks {
                    // An empty breadcrumb is never prepended, whatever the
                    // budget.
                    assert!(
                        c.text.starts_with("desc") || !c.text.starts_with('\n'),
                        "chunk {} starts with a blank breadcrumb: {:?}; content={content:?}",
                        c.index,
                        c.text
                    );
                }
                if heading_metadata {
                    assert_chunks_stay_within_one_section(&body, &chunks);
                }
            }
        }
        assert_outline_ranges_valid(&content);
    }
}

#[test]
fn no_headings_and_empty_body() {
    let tree = HeadingTree::parse("just text\nmore\n");
    assert!(tree.headings().is_empty());
    assert_eq!(tree.line_count(), 3);
    assert_eq!(tree.preamble_end(), 3);
    let empty = HeadingTree::parse("");
    assert_eq!(empty.line_count(), 0);
    assert_eq!(empty.preamble_end(), 0);
}

#[test]
fn section_id_merge_ranges_and_levels() {
    let body = "Intro\n# A\n## B\n## C\n# D\n";
    let tree = HeadingTree::parse(body);
    let (a, b, c, d) = (
        SectionId::Heading(0),
        SectionId::Heading(1),
        SectionId::Heading(2),
        SectionId::Heading(3),
    );
    assert_eq!(b.merge(c, &tree), a);
    assert_eq!(b.merge(d, &tree), SectionId::Root);
    assert_eq!(SectionId::Preamble.merge(a, &tree), SectionId::Root);
    assert_eq!(
        SectionId::Preamble.merge(SectionId::Preamble, &tree),
        SectionId::Preamble
    );
    assert_eq!(a.line_range(&tree), (2, 4));
    assert_eq!(SectionId::Preamble.line_range(&tree), (1, 1));
    assert_eq!(SectionId::Root.line_range(&tree), (1, 6));
    assert_eq!(c.path(&tree), vec!["A", "C"]);
    assert_eq!(c.level(&tree), 2);
    assert_eq!(SectionId::Root.level(&tree), 0);
}

#[test]
fn line_index_lookup_and_slicing() {
    let text = "ab\n\ncd\n";
    let idx = LineIndex::new(text);
    assert_eq!(idx.line_count(), 4);
    assert_eq!(idx.line_of(0), 1);
    assert_eq!(idx.line_of(2), 1, "a newline belongs to the line it ends");
    assert_eq!(idx.line_of(3), 2);
    assert_eq!(idx.line_of(4), 3);
    assert_eq!(&text[idx.byte_range(1, 1)], "ab");
    assert_eq!(&text[idx.byte_range(2, 3)], "\ncd");
    assert_eq!(&text[idx.byte_range(3, 4)], "cd\n");
}

// ── frontmatter line offset ─────────────────────────────────────────────

#[test]
fn body_line_offset_counts_frontmatter_and_stripped_blank_lines() {
    // Files ending in '\n' and CRLF files, where a suffix comparison
    // against the raw file would find no match.
    assert_eq!(body_line_offset("---\ntitle: T\n---\n# H\n\nBody\n"), 3);
    assert_eq!(body_line_offset("---\ntitle: x\n---\n\n# A\nbody\n"), 4);
    assert_eq!(body_line_offset("\n\n# A\nbody\n"), 2);
    assert_eq!(
        body_line_offset("---\r\ntitle: T\r\n---\r\n# H\r\n\r\nBody\r\n"),
        3
    );
    assert_eq!(body_line_offset("---\ntitle: T\n---\n# H\n\nBody"), 3);
    assert_eq!(body_line_offset("# Hello\nBody text\n"), 0);
    // Unclosed frontmatter: gray_matter treats the rest as body.
    assert_eq!(body_line_offset("---\ntitle: T\n# H\n"), 1);
    // Closing delimiter with trailing spaces, then blank lines.
    assert_eq!(body_line_offset("---  \ntitle: T\n---   \n\n\n# H\n"), 5);
    // Whitespace-only lines are not stripped by gray_matter.
    assert_eq!(body_line_offset("---\na: 1\n---\n  \n# H\n"), 3);
    assert_eq!(body_line_offset(""), 0);
    assert_eq!(body_line_offset("---\ntitle: T\n---\n"), 3);
}

/// Property test. For every combination of frontmatter shape, leading
/// blank lines, line ending and trailing newlines:
/// - the offset maps gray_matter's body back onto the raw file exactly,
/// - every heading's reported line is the raw line holding that heading,
/// - the outline and the chunks report file lines
///   that agree with the raw file and with each other, and every chunk's
///   section range covers the chunk.
#[test]
fn line_numbers_agree_with_the_raw_file_across_generated_variants() {
    let frontmatters = [
        "",
        "---\ntitle: T\n---\n",
        "---\ntitle: T\ntags: [a, b]\n---\n\n",
        "---   \ntitle: T\n---  \n\n\n",
        "---\ndescription: \"a --- b\"\n---\n  \n",
        // Unclosed: gray_matter makes everything after line 1 body.
        "---\ntitle: T\n",
    ];
    let leading = ["", "\n", "\n\n", "  \n"];
    let bodies = [
        "# Alpha\n\nIntro.\n\n## Beta\n\nBeta body.\n\n```\n# fenced\n```\n\nGamma Heading\n-------------\n\n### Delta `x`\n\nEnd.",
        "Preamble line.\n\n# Alpha\n\n> # quoted\n\n## Beta ##\n\ntext\n\n# Alpha\n\nagain",
        "No headings at all.\n\nJust text.",
    ];
    let trailing = ["", "\n", "\n\n", "\n\n\n"];
    let mut checked = 0;

    for fm in frontmatters {
        for lead in leading {
            for body_src in bodies {
                for trail in trailing {
                    for crlf in [false, true] {
                        let lf = format!("{fm}{lead}{body_src}{trail}");
                        let content = if crlf { lf.replace('\n', "\r\n") } else { lf };
                        check_variant(&content);
                        checked += 1;
                    }
                }
            }
        }
    }
    assert_eq!(checked, 6 * 4 * 3 * 4 * 2);
}

fn check_variant(content: &str) {
    let body = parse_body(content);
    let offset = body_line_offset(content);
    let raw_lines: Vec<&str> = content.lines().collect();
    let ctx = format!("content={content:?}");

    assert_eq!(
        raw_lines[offset.min(raw_lines.len())..].join("\n"),
        body,
        "offset {offset} does not map the body onto the raw file; {ctx}"
    );
    let tree = HeadingTree::parse(&body);
    assert_eq!(
        offset + tree.line_count(),
        raw_lines.len(),
        "body lines + offset must equal the file's lines; {ctx}"
    );

    for heading in tree.headings() {
        let raw = raw_lines[offset + heading.line - 1];
        let first_word = heading.text.split(' ').next().unwrap();
        assert!(
            raw.contains(first_word),
            "heading {:?} reported at file line {} which is {raw:?}; {ctx}",
            heading.text,
            offset + heading.line
        );
    }

    let outline = outline(content);
    let heading_entries: Vec<_> = outline.iter().filter(|e| e.level > 0).collect();
    assert_eq!(heading_entries.len(), tree.headings().len(), "{ctx}");
    for (entry, heading) in heading_entries.iter().zip(tree.headings()) {
        assert_eq!(entry.line_start, offset + heading.line, "{ctx}");
        assert_eq!(entry.line_end, offset + heading.subtree_end, "{ctx}");
        assert!(
            raw_lines[entry.line_start - 1].contains(heading.text.split(' ').next().unwrap())
        );
    }
    if let Some(last) = outline.last() {
        assert_eq!(
            last.line_end,
            raw_lines.len(),
            "last entry must reach EOF; {ctx}"
        );
    }

    let cfg = ChunkingConfig {
        max_chunk_size: 120,
        target_chunk_size: Some(40),
        prepend_description: false,
        prepend_heading_path: false,
        heading_metadata: true,
    };
    let chunks = chunk_markdown(&body, None, &cfg);
    assert_chunks_stay_within_one_section(&body, &chunks);
    for chunk in chunks {
        let (start, end) = (chunk.line_start + offset, chunk.line_end + offset);
        let (s_start, s_end) = (
            chunk.section_line_start + offset,
            chunk.section_line_end + offset,
        );
        assert!(
            s_start <= start && end <= s_end,
            "section must cover chunk; {ctx}"
        );
        assert!(end <= raw_lines.len(), "{ctx}");
        // Only the first line is compared: merged pieces are joined with a
        // blank line, so later chunk lines need not line up with the file.
        // A blank first line (a preamble opening with a whitespace-only
        // line) must sit on a blank file line — `contains("")` would accept
        // any line.
        let first = chunk.text.lines().next().unwrap().trim();
        let raw = raw_lines[start - 1];
        let matches = if first.is_empty() {
            raw.trim().is_empty()
        } else {
            raw.contains(first)
        };
        assert!(
            matches,
            "chunk starting {first:?} reported at file line {start} = {raw:?}; {ctx}"
        );
        if chunk.heading_level > 0 {
            let entry = outline
                .iter()
                .find(|e| e.line_start == s_start && e.level == chunk.heading_level)
                .unwrap_or_else(|| panic!("no outline entry for chunk section; {ctx}"));
            assert_eq!(entry.heading_path, chunk.heading_path, "{ctx}");
            assert_eq!(entry.line_end, s_end, "{ctx}");
        }
    }
}
