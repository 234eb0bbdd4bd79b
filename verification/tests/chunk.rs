use md_kb_rag::chunk::{
    chunk_markdown, format_heading_path, heading_path_budget, split_sections, Chunk, RawChunk,
    MIN_MERGE_SIZE,
};
use md_kb_rag::config::ChunkingConfig;
use md_kb_rag::heading::HeadingTree;
use md_kb_rag::section::SectionId;

/// The `chunking.heading_metadata` invariant: no chunk crosses a
/// heading boundary. No chunk's line range contains a heading line other
/// than its own first line; every chunk lies inside one heading's own
/// section (and is attributed to exactly that heading, with its subtree
/// range) or inside the preamble; attribution is never `Root`.
fn assert_chunks_stay_within_one_section(
    body: &str,
    chunks: &[Chunk],
) {
    let tree = HeadingTree::parse(body);
    for c in chunks {
        let ctx = format!(
            "chunk {} lines {}-{} section {}-{} path {:?}; body={body:?}",
            c.index,
            c.line_start,
            c.line_end,
            c.section_line_start,
            c.section_line_end,
            c.heading_path
        );
        for h in tree.headings() {
            assert!(
                !(c.line_start < h.line && h.line <= c.line_end),
                "heading {:?} at line {} is inside a chunk; {ctx}",
                h.text,
                h.line
            );
        }
        if c.heading_level == 0 {
            assert!(c.heading_path.is_empty(), "{ctx}");
            assert_eq!(
                (c.section_line_start, c.section_line_end),
                (1, tree.preamble_end()),
                "a heading-less chunk must be attributed to the preamble, not Root; {ctx}"
            );
            assert!(c.line_end <= tree.preamble_end(), "{ctx}");
        } else {
            let (i, h) = tree
                .headings()
                .iter()
                .enumerate()
                .find(|(_, h)| h.line == c.section_line_start)
                .unwrap_or_else(|| panic!("no heading starts the chunk's section; {ctx}"));
            assert_eq!(h.level, c.heading_level, "{ctx}");
            assert_eq!(c.heading_path, tree.path(Some(i)), "{ctx}");
            assert_eq!(c.section_line_end, h.subtree_end, "{ctx}");
            assert!(
                h.line <= c.line_start && c.line_end <= h.section_end,
                "chunk must lie within its heading's own section {}-{}; {ctx}",
                h.line,
                h.section_end
            );
        }
    }
}

fn cfg(
    max: usize,
    target: Option<usize>,
    prepend_description: bool,
    prepend_heading_path: bool,
) -> ChunkingConfig {
    ChunkingConfig {
        max_chunk_size: max,
        target_chunk_size: target,
        prepend_description,
        prepend_heading_path,
        // Off: the merge-across-headings behavior most tests here pin.
        // `cfg_isolated` turns it on for the no-merge tests.
        heading_metadata: false,
    }
}

#[test]
fn single_chunk_short_text() {
    let chunks = chunk_markdown("Hello world", None, &cfg(1000, None, false, false));
    assert_eq!(chunks.len(), 1);
    assert_eq!(chunks[0].text, "Hello world");
    assert_eq!(chunks[0].index, 0);
}

#[test]
fn sections_split_at_headings() {
    let filler = "Word ".repeat(60); // ~300 chars per section
    let body = format!("# Section 1\n\n{filler}\n\n# Section 2\n\n{filler}");
    // target=400 means each ~315-char section gets its own chunk
    let chunks = chunk_markdown(&body, None, &cfg(1500, Some(400), false, false));
    assert_eq!(chunks.len(), 2);
    assert!(chunks[0].text.starts_with("# Section 1"));
    assert!(chunks[1].text.starts_with("# Section 2"));
}

#[test]
fn small_sections_combined_to_target() {
    let body = "# A\n\nSmall.\n\n# B\n\nAlso small.\n\n# C\n\nTiny.";
    // Everything is well under target, should combine into one chunk
    let chunks = chunk_markdown(body, None, &cfg(1500, Some(1000), false, false));
    assert_eq!(chunks.len(), 1);
    assert!(chunks[0].text.contains("# A"));
    assert!(chunks[0].text.contains("# C"));
}

#[test]
fn oversized_section_split_by_splitter() {
    let big = "Word ".repeat(400); // ~2000 chars
    let body = format!("## Big Section\n\n{big}");
    let chunks = chunk_markdown(&body, None, &cfg(1000, Some(800), false, false));
    assert!(chunks.len() >= 2, "Oversized section should be split");
    // Allow up to max + MIN_MERGE_SIZE to accommodate a tiny pending heading
    // (< MIN_MERGE_SIZE chars) that is always merged forward into the first
    // content chunk to keep it attached to its section.
    let limit = 1000 + MIN_MERGE_SIZE;
    for chunk in &chunks {
        assert!(
            chunk.text.trim().len() <= limit,
            "No chunk should wildly exceed max (got {} chars trimmed, limit {})",
            chunk.text.trim().len(),
            limit,
        );
    }
}

#[test]
fn heading_stays_with_content() {
    let filler_a = "Content A. ".repeat(50); // ~550 chars
    let filler_b = "Content B. ".repeat(50);
    let body = format!("## Section A\n\n{filler_a}\n\n## Section B\n\n{filler_b}");
    // target=600 — each section fits on its own but not combined
    let chunks = chunk_markdown(&body, None, &cfg(1500, Some(600), false, false));
    assert_eq!(chunks.len(), 2);
    assert!(chunks[0].text.starts_with("## Section A"));
    assert!(chunks[0].text.contains("Content A"));
    assert!(chunks[1].text.starts_with("## Section B"));
    assert!(chunks[1].text.contains("Content B"));
}

#[test]
fn prepend_description() {
    let chunks = chunk_markdown(
        "Body text",
        Some("A description"),
        &cfg(1000, None, true, false),
    );
    assert_eq!(chunks.len(), 1);
    assert!(chunks[0].text.starts_with("A description\n\n"));
    assert!(chunks[0].text.contains("Body text"));
}

#[test]
fn no_prepend_when_disabled() {
    let chunks = chunk_markdown(
        "Body text",
        Some("A description"),
        &cfg(1000, None, false, false),
    );
    assert_eq!(chunks[0].text, "Body text");
}

#[test]
fn prepend_description_all_chunks() {
    // Create two sections large enough to land in separate chunks (target=400)
    let filler = "Word ".repeat(60); // ~300 chars per section
    let body = format!("# Section 1\n\n{filler}\n\n# Section 2\n\n{filler}");
    let chunks = chunk_markdown(
        &body,
        Some("My description"),
        &cfg(1500, Some(400), true, false),
    );
    assert!(chunks.len() >= 2, "Expected multiple chunks for this test");
    for (i, chunk) in chunks.iter().enumerate() {
        assert!(
            chunk.text.starts_with("My description\n\n"),
            "Chunk {i} does not start with the description"
        );
    }
}

#[test]
fn empty_body() {
    let chunks = chunk_markdown("", None, &cfg(1000, None, false, false));
    assert!(chunks.is_empty());
}

#[test]
fn target_defaults_to_max() {
    let c = cfg(1500, None, false, false);
    assert_eq!(c.target(), 1500);
}

#[test]
fn oversized_section_heading_stays_with_code_block() {
    // Heading + large code block in one section — when split by
    // MarkdownSplitter, the heading must stay attached to content.
    let big_yaml = "  key: value\n".repeat(150); // ~1950 chars
    let body = format!("## Docker Compose\n\n```yaml\n{big_yaml}```");
    let chunks = chunk_markdown(&body, None, &cfg(1500, Some(1000), false, false));
    assert!(
        chunks[0].text.contains("## Docker Compose"),
        "First chunk must contain the heading"
    );
    assert!(
        chunks[0].text.contains("key: value"),
        "First chunk must contain code block content, not just the heading"
    );
}

#[test]
fn split_sections_basic() {
    let body = "# A\n\nContent A\n\n## B\n\nContent B";
    let tree = HeadingTree::parse(body);
    let sections = split_sections(body, &tree);
    assert_eq!(sections.len(), 2);
    // # A        = line 1
    // (blank)    = line 2
    // Content A  = line 3
    // (blank)    = line 4  ← still part of section A
    // ## B       = line 5
    // (blank)    = line 6
    // Content B  = line 7
    assert!(sections[0].text.starts_with("# A"));
    assert_eq!(sections[0].line_start, 1);
    assert_eq!(sections[0].line_end, 4);
    assert!(sections[1].text.starts_with("## B"));
    assert_eq!(sections[1].line_start, 5);
    assert_eq!(sections[1].line_end, 7);
}

#[test]
fn chunks_have_line_ranges() {
    let filler = "Word ".repeat(50); // ~250 chars
    let body = format!("# A\n\n{filler}\n\n## B\n\n{filler}");
    let chunks = chunk_markdown(&body, None, &cfg(1500, Some(300), false, false));
    assert_eq!(chunks.len(), 2);
    assert_eq!(chunks[0].line_start, 1);
    assert!(chunks[0].line_end > 1);
    assert!(chunks[1].line_start > chunks[0].line_end);
    assert!(chunks[1].line_end >= chunks[1].line_start);
}

#[test]
fn oversized_section_never_exceeds_max_chunk_size() {
    // Generate a very large section with many paragraphs
    let paragraphs: Vec<String> = (0..20)
        .map(|i| {
            format!(
                "Paragraph {}. {}",
                i,
                "Lorem ipsum dolor sit amet. ".repeat(10)
            )
        })
        .collect();
    let body = format!("## Big\n\n{}", paragraphs.join("\n\n"));
    let max = 1000;
    let chunks = chunk_markdown(&body, None, &cfg(max, Some(800), false, false));
    for (i, chunk) in chunks.iter().enumerate() {
        assert!(
            chunk.text.trim().len() <= max,
            "Chunk {} has {} chars (max {})",
            i,
            chunk.text.trim().len(),
            max,
        );
    }
}

#[test]
fn trailing_fragment_overflow_creates_own_chunk() {
    // Build a section where the last splitter fragment is small but the
    // previous chunk is already near max — merging would overflow.
    let near_max = "X ".repeat(490); // ~980 chars
    let tail = "Tail content here."; // small
    let body = format!("## Title\n\n{}\n\n{}", near_max, tail);
    let max = 1000;
    let chunks = chunk_markdown(&body, None, &cfg(max, Some(800), false, false));
    for (i, chunk) in chunks.iter().enumerate() {
        assert!(
            chunk.text.trim().len() <= max,
            "Chunk {} has {} chars (max {})",
            i,
            chunk.text.trim().len(),
            max,
        );
    }
}

#[test]
fn two_consecutive_small_fragments_stay_within_max() {
    // Two small parts that individually are below MIN_MERGE_SIZE but
    // together with a near-max preceding chunk would overflow.
    let big_part = "Y ".repeat(480); // ~960 chars
    let small_a = "Alpha. ".repeat(5); // ~35 chars
    let small_b = "Beta. ".repeat(5); // ~30 chars
    let body = format!("## S\n\n{}\n\n{}\n\n{}", big_part, small_a, small_b);
    let max = 1000;
    let chunks = chunk_markdown(&body, None, &cfg(max, Some(800), false, false));
    for (i, chunk) in chunks.iter().enumerate() {
        assert!(
            chunk.text.trim().len() <= max,
            "Chunk {} has {} chars (max {})",
            i,
            chunk.text.trim().len(),
            max,
        );
    }
}

#[test]
fn oversized_section_sub_chunks_have_distinct_monotonic_line_starts() {
    // Build a section large enough to produce at least 2 sub-chunks.
    // Each paragraph is on its own line so splitter fragments land on
    // different lines and we can verify monotonic line_start values.
    let paragraphs: Vec<String> = (0..30)
        .map(|i| {
            format!(
                "Paragraph {}. {}",
                i,
                "Lorem ipsum dolor sit amet. ".repeat(5)
            )
        })
        .collect();
    // section_start is line 1 (the heading), paragraphs start at line 3
    let body = format!("## Large Section\n\n{}", paragraphs.join("\n\n"));
    let max = 600;
    let chunks = chunk_markdown(&body, None, &cfg(max, Some(400), false, false));
    assert!(
        chunks.len() >= 2,
        "Expected >=2 sub-chunks from oversized section, got {}",
        chunks.len()
    );
    // Sub-chunk line_start values must be strictly increasing.
    for w in chunks.windows(2) {
        assert!(
            w[1].line_start > w[0].line_start,
            "line_start not monotonically increasing: chunk has line_start={} after chunk with line_start={}",
            w[1].line_start,
            w[0].line_start,
        );
    }
    // All sub-chunks must stay within the document's line range.
    let total_lines = body.lines().count();
    for (i, chunk) in chunks.iter().enumerate() {
        assert!(
            chunk.line_start >= 1,
            "Chunk {} line_start {} is below 1",
            i,
            chunk.line_start,
        );
        assert!(
            chunk.line_end <= total_lines,
            "Chunk {} line_end {} exceeds document line count {}",
            i,
            chunk.line_end,
            total_lines,
        );
        assert!(
            chunk.line_end >= chunk.line_start,
            "Chunk {} has line_end {} < line_start {}",
            i,
            chunk.line_end,
            chunk.line_start,
        );
    }
}

#[test]
fn single_chunk_section_has_correct_line_range() {
    // A section that fits in one chunk must still report accurate line ranges.
    // Line 1: "# Title"
    // Line 2: "" (blank)
    // Line 3: "Line two."
    // Line 4: "Line three."
    // Line 5: "Line four."
    let body = "# Title\n\nLine two.\nLine three.\nLine four.";
    let chunks = chunk_markdown(body, None, &cfg(1000, None, false, false));
    assert_eq!(chunks.len(), 1);
    assert_eq!(chunks[0].line_start, 1);
    assert_eq!(chunks[0].line_end, 5);
}

// ── chunking.prepend_heading_path  ────────────────────────────

#[test]
fn heading_path_prepended_across_nesting_levels() {
    // target=Some(1) forces every section into its own chunk regardless of
    // size (effective_target saturates to 0), which is what isolates the
    // deeply nested "### GPU Backends" section from its ancestor headings
    // so there is something real to prepend.
    let body = "# ares\n\n## Hardware\n\n### GPU Backends\n\nROCm and Vulkan notes.";
    let chunks = chunk_markdown(body, None, &cfg(1500, Some(1), false, true));
    assert_eq!(chunks.len(), 3, "each heading should land in its own chunk");

    // The root section's own chunk needs no breadcrumb — it has no
    // ancestors, and it already carries "# ares" as its literal first line.
    assert!(chunks[0].text.starts_with("# ares"));
    assert!(
        !chunks[0].text.contains(" > "),
        "root section should carry no breadcrumb, got: {:?}",
        chunks[0].text
    );

    // One level of ancestry.
    assert!(
        chunks[1].text.starts_with("ares\n\n## Hardware"),
        "got: {:?}",
        chunks[1].text
    );

    // Two levels of ancestry, outermost first, own heading excluded (it's
    // already the first line of the section text that follows).
    assert!(
        chunks[2]
            .text
            .starts_with("ares > Hardware\n\n### GPU Backends"),
        "got: {:?}",
        chunks[2].text
    );
    assert!(chunks[2].text.contains("ROCm and Vulkan notes."));
}

#[test]
fn heading_path_disabled_by_config() {
    // Same nested body as heading_path_prepended_across_nesting_levels, but
    // with the knob off — no chunk should gain a breadcrumb.
    let body = "# ares\n\n## Hardware\n\n### GPU Backends\n\nROCm and Vulkan notes.";
    let chunks = chunk_markdown(body, None, &cfg(1500, Some(1), false, false));
    assert_eq!(chunks.len(), 3);
    for (i, chunk) in chunks.iter().enumerate() {
        assert!(
            !chunk.text.contains(" > "),
            "chunk {i} should carry no breadcrumb with the knob off, got: {:?}",
            chunk.text
        );
    }
}

#[test]
fn flat_single_heading_document_gets_no_heading_path_prefix() {
    // The only heading of this body has no ancestors, so there is no heading
    // path to put before the chunk.
    let body = "## Heading\n\nSome body content.";
    let description = "A short summary.";
    let config = ChunkingConfig::default();
    assert!(
        config.prepend_heading_path,
        "this test assumes the production default"
    );
    let chunks = chunk_markdown(body, Some(description), &config);
    assert_eq!(
        chunks[0].text,
        format!("{}\n\n{}", description, body),
        "a flat, unnested heading must not gain a heading-path prefix"
    );
}

#[test]
fn heading_path_and_prepend_description_compose_in_order() {
    // With both knobs on, the ordering is breadcrumb, then description,
    // then body — see the comment on the final assembly step in
    // `chunk_markdown` for why (and for why this ordering is what keeps
    // `prepend_description`'s own tests undisturbed when there is no
    // breadcrumb to add).
    let body = "# Root\n\n## Nested\n\nBody content here.";
    let chunks = chunk_markdown(body, Some("A description"), &cfg(1500, Some(1), true, true));
    // chunks[1] is the "## Nested" section, one level of ancestry below Root.
    assert!(
        chunks[1]
            .text
            .starts_with("Root\n\nA description\n\n## Nested"),
        "got: {:?}",
        chunks[1].text
    );
}

#[test]
fn heading_path_budget_respects_max_chunk_size() {
    // Build a long, deeply nested ancestor chain (far longer than the
    // reserved breadcrumb budget once joined) sitting above a section whose
    // own content is sized to use most of the remaining budget, and confirm
    // the *final*, prefixed chunk text still never exceeds max_chunk_size —
    // not "max_chunk_size plus the prefix", which is what a naive
    // unconditional prepend (like `prepend_description`'s, a pre-existing
    // and deliberately separate concern) would produce.
    //
    // Ancestors use CommonMark's real levels 1-5 under a level-6 section
    // (7+ `#` is paragraph text, not a heading, so it cannot nest deeper).
    let max = 1000;
    let mut body = String::new();
    for level in 1..=5 {
        body.push_str(&"#".repeat(level));
        body.push_str(&format!(
            " AncestorLevel{level:02}WithSomeExtraPaddingToBeLongEnough\n\n"
        ));
    }
    let filler = "Y ".repeat(375); // ~750 chars — large but not oversized
    body.push_str(&"#".repeat(6));
    body.push_str(" DeepSection\n\n");
    body.push_str(&filler);

    // target=Some(1) isolates the deep section from its (tiny) ancestor
    // heading-only sections, same technique as the nesting test above.
    let chunks = chunk_markdown(&body, None, &cfg(max, Some(1), false, true));
    let deep_chunk = chunks.last().expect("expected at least one chunk");
    assert!(
        deep_chunk.text.contains("DeepSection"),
        "expected the deep section's own chunk, got: {:?}",
        deep_chunk.text
    );

    assert!(
        deep_chunk.text.trim().len() <= max,
        "chunk length {} must respect max_chunk_size {} even with a long \
         ancestor chain prepended",
        deep_chunk.text.trim().len(),
        max,
    );

    // The breadcrumb itself must have been truncated to the reserved
    // budget rather than being left to run away with the whole chunk.
    let (prefix, rest) = deep_chunk
        .text
        .split_once("\n\n")
        .expect("chunk should have a breadcrumb separated from its body by a blank line");
    assert!(
        prefix.chars().count() <= heading_path_budget(max),
        "breadcrumb should be truncated to the reserved budget, got {} chars: {:?}",
        prefix.chars().count(),
        prefix,
    );
    assert!(
        prefix.starts_with("AncestorLevel01WithSomeExtraPaddingToBeLongEnough > "),
        "breadcrumb must be the ancestor chain, got: {prefix:?}"
    );
    let untruncated = (1..=5)
        .map(|l| format!("AncestorLevel{l:02}WithSomeExtraPaddingToBeLongEnough"))
        .collect::<Vec<_>>()
        .join(" > ");
    assert!(
        untruncated.chars().count() > heading_path_budget(max),
        "fixture must actually exercise truncation"
    );
    assert!(
        rest.starts_with("###### DeepSection"),
        "body must still start with the deep section's own heading line, got: {:?}",
        rest
    );
}

#[test]
fn oversized_section_continuation_fragment_gets_full_heading_path() {
    // A section nested two levels deep, oversized enough that
    // MarkdownSplitter breaks it into multiple fragments. Only the first
    // fragment carries the section's own "### Big" heading line verbatim
    // (per the "always merge a tiny pending fragment forward" rule this
    // mirrors); every fragment after that is pure body text with no
    // heading of its own, so its breadcrumb is the section's full path
    // (restating "Big") rather than only the heading's ancestors (which
    // would leave that fragment with no indication at all of which
    // section it belongs to) — this is also
    // exactly the case the MIN_MERGE_SIZE small-fragment-merging logic
    // still has to behave correctly under, since it runs unmodified against
    // `effective_max` here.
    let filler = "Lorem ipsum dolor sit amet consectetur. ".repeat(80); // ~3400 chars
    let body = format!("# Root\n\n## Section\n\n### Big\n\n{filler}");
    let chunks = chunk_markdown(&body, None, &cfg(1000, Some(800), false, true));
    assert!(
        chunks.len() >= 3,
        "expected the heading-only Root/Section chunk plus 2+ split \
         fragments of Big, got {}",
        chunks.len()
    );

    // chunks[0]: "# Root" + "## Section" merged (both tiny, well under
    // target) and flushed when the oversized "### Big" section is hit.
    assert!(chunks[0].text.starts_with("# Root"));

    // chunks[1]: the first fragment of "### Big" — carries the heading line
    // itself, so the breadcrumb excludes "Big" (ancestors only).
    assert!(
        chunks[1].text.starts_with("Root > Section\n\n### Big"),
        "got: {:?}",
        chunks[1].text
    );

    // chunks[2]: a later fragment — no heading line in its own text, so
    // the breadcrumb must restate "Big" too (the full path).
    assert!(
        !chunks[2].text.contains("### Big"),
        "later fragment should be pure body text with no heading line, got: {:?}",
        chunks[2].text
    );
    assert!(
        chunks[2].text.starts_with("Root > Section > Big\n\n"),
        "got: {:?}",
        chunks[2].text
    );
}

// ── merged-chunk breadcrumb narrowing ────────────────────────────

#[test]
fn merged_chunk_breadcrumb_narrows_to_shared_ancestor() {
    // "### Blinded" (nested under "## Conditions", itself under "# Root")
    // is small enough to merge forward with the following "## Actions"
    // section — a sibling of "## Conditions", not "### Blinded" itself.
    // The merged chunk must not keep only the ancestors of
    // "### Blinded" ("Root > Conditions"), misattributing the
    // "## Actions" content it now also carries to a heading it was never
    // under. The breadcrumb is the deepest heading both merged sections
    // actually share: "Root".
    let filler = "Word ".repeat(60); // ~300 chars, forces Root/Conditions to flush separately
    let body = format!(
        "# Root\n\n## Conditions\n\n{filler}\n\n### Blinded\n\nBlinded is bad.\n\n## Actions\n\nActions cost."
    );
    let chunks = chunk_markdown(&body, None, &cfg(1500, Some(300), false, true));
    assert_eq!(
        chunks.len(),
        3,
        "expected Root, Conditions, and a merged Blinded+Actions chunk, got: {:?}",
        chunks.iter().map(|c| &c.text).collect::<Vec<_>>()
    );
    let merged = &chunks[2];
    assert!(
        merged.text.starts_with("Root\n\n### Blinded"),
        "breadcrumb should narrow to the shared ancestor \"Root\", got: {:?}",
        merged.text
    );
    assert!(
        merged.text.contains("## Actions"),
        "merged chunk should still carry the Actions section, got: {:?}",
        merged.text
    );
}

#[test]
fn sibling_merge_leaves_breadcrumb_unchanged() {
    // "## A" and "## B" are true siblings — both nested directly under
    // "# Root" with no heading of their own between them — so merging
    // them must leave the breadcrumb exactly as it was for "## A" alone:
    // narrowing against an identical set of ancestors is a no-op.
    let filler = "Word ".repeat(60); // ~300 chars, forces Root to flush before A/B
    let body = format!("# Root\n\n{filler}\n\n## A\n\nSmall A.\n\n## B\n\nSmall B.");
    let chunks = chunk_markdown(&body, None, &cfg(1500, Some(300), false, true));
    assert_eq!(
        chunks.len(),
        2,
        "expected the Root chunk and a merged A+B chunk, got: {:?}",
        chunks.iter().map(|c| &c.text).collect::<Vec<_>>()
    );
    let merged = &chunks[1];
    assert!(
        merged.text.starts_with("Root\n\n## A"),
        "sibling merge must not change the breadcrumb, got: {:?}",
        merged.text
    );
    assert!(merged.text.contains("## B"));
}

#[test]
fn raw_chunk_append_narrows_by_heading_identity() {
    // White-box test of `RawChunk::append`. Root > Conditions > Blinded,
    // then Root > Actions: both the breadcrumb and the section narrow to
    // Root.
    let body = "# Root\n## Conditions\n### Blinded\nBlinded is bad.\n## Actions\nActions cost.";
    let tree = HeadingTree::parse(body);
    let mut chunk = RawChunk {
        text: "### Blinded\nBlinded is bad.".to_string(),
        line_start: 3,
        line_end: 4,
        breadcrumb: Some(1),
        section: SectionId::Heading(2),
    };
    chunk.append(
        "## Actions\nActions cost.",
        6,
        Some(0),
        SectionId::Heading(3),
        &tree,
    );
    assert_eq!(chunk.breadcrumb, Some(0));
    assert_eq!(chunk.section, SectionId::Heading(0));
    assert_eq!(chunk.line_end, 6);
}

#[test]
fn level_seven_hashes_are_section_text_not_a_boundary() {
    // seven `#` is paragraph text in CommonMark, so it
    // neither splits the section nor re-parents anything.
    let body = "## Real Heading\n\n####### Not a heading\n\nSome text.";
    let tree = HeadingTree::parse(body);
    let sections = split_sections(body, &tree);
    assert_eq!(sections.len(), 1);
    assert_eq!(sections[0].line_end, 5);
    let chunks = chunk_markdown(body, None, &cfg(1000, None, false, false));
    assert_eq!(chunks.len(), 1);
    assert_eq!(chunks[0].heading_path, vec!["Real Heading".to_string()]);
}

// ── attribution ──────────────────────────────────────

/// Asserts that the attributed section range
/// always covers the chunk.
fn assert_sections_cover_chunks(chunks: &[Chunk]) {
    for c in chunks {
        assert!(
            c.section_line_start <= c.line_start && c.line_end <= c.section_line_end,
            "chunk {} lines {}-{} not covered by its section {}-{}",
            c.index,
            c.line_start,
            c.line_end,
            c.section_line_start,
            c.section_line_end
        );
    }
}

#[test]
fn continuation_fragments_merged_together_keep_the_sections_own_heading() {
    // a small continuation paragraph merged with the next one keeps
    // the section's own heading in its breadcrumb ("R > Big", not just the
    // ancestors' "R").
    let long_a = format!("Alpha {}", "alpha ".repeat(115)); // ~700 chars
    let short = format!("Short {}", "short ".repeat(15)); // ~100 chars
    let long_b = format!("Beta {}", "beta ".repeat(139)); // ~700 chars
    let body = format!("# R\n\n## Big\n\n{long_a}\n\n{short}\n\n{long_b}");
    let chunks = chunk_markdown(&body, None, &cfg(1000, Some(800), false, true));
    assert_sections_cover_chunks(&chunks);

    let texts: Vec<&str> = chunks.iter().map(|c| c.text.as_str()).collect();
    // The tiny "# R" section is flushed on its own when the oversized
    // "## Big" section is reached.
    assert_eq!(chunks.len(), 3, "got: {texts:?}");
    assert_eq!(chunks[0].text, "# R\n");
    assert!(
        chunks[1].text.starts_with("R\n\n## Big\n\nAlpha"),
        "got: {:?}",
        chunks[1].text
    );
    let merged = &chunks[2];
    assert!(
        merged.text.contains("Short ") && merged.text.contains("Beta "),
        "the short paragraph must merge forward into the next one; got: {texts:?}"
    );
    assert!(
        merged.text.starts_with("R > Big\n\nShort "),
        "got: {:?}",
        merged.text
    );
    for c in &chunks[1..] {
        assert_eq!(c.heading_path, vec!["R".to_string(), "Big".to_string()]);
    }
}

#[test]
fn merge_narrowing_uses_identity_not_text_for_same_named_headings() {
    // `### C` then a *different* `## C`. Narrowing is by heading
    // identity, so the merged chunk is attributed to their common ancestor
    // `A`, not to either `C`.
    let filler = "Word ".repeat(60);
    let body = format!("# A\n\n{filler}\n\n### C\n\nsmall\n\n## C\n\nsmall2");
    let chunks = chunk_markdown(&body, None, &cfg(1500, Some(300), false, false));
    assert_sections_cover_chunks(&chunks);
    let merged = chunks.last().unwrap();
    assert!(merged.text.starts_with("### C") && merged.text.contains("## C"));
    assert_eq!(merged.heading_path, vec!["A".to_string()]);
    assert_eq!(merged.heading_level, 1);
    assert_eq!(
        (merged.section_line_start, merged.section_line_end),
        (1, 11)
    );
    assert_eq!((merged.line_start, merged.line_end), (5, 11));

    // `## X` merged with a second, unrelated `# R`.
    let body = format!("# R\n\n{filler}\n\n## X\n\nsmall x\n\n# R\n\nsmall r2");
    let chunks = chunk_markdown(&body, None, &cfg(1500, Some(300), false, true));
    assert_sections_cover_chunks(&chunks);
    let merged = chunks.last().unwrap();
    assert!(
        merged.text.starts_with("## X"),
        "no shared heading, so no breadcrumb; got: {:?}",
        merged.text
    );
    assert!(merged.heading_path.is_empty());
    assert_eq!(merged.heading_level, 0);
    assert_eq!(
        (merged.section_line_start, merged.section_line_end),
        (1, 11)
    );
}

#[test]
fn preamble_merged_with_sections_is_attributed_to_the_whole_body() {
    // a chunk holding the preamble and later sections is attributed
    // to the whole body, not to the preamble's own 1-2 range.
    let body = "Intro text.\n\n# A\n\nA body.\n\n## B\n\nB body.";
    let chunks = chunk_markdown(body, None, &cfg(1000, None, false, false));
    assert_eq!(chunks.len(), 1);
    assert!(chunks[0].heading_path.is_empty());
    assert_eq!((chunks[0].line_start, chunks[0].line_end), (1, 9));
    assert_eq!(
        (chunks[0].section_line_start, chunks[0].section_line_end),
        (1, 9)
    );
}

#[test]
fn preamble_alone_is_attributed_to_the_preamble() {
    let filler = "Word ".repeat(60);
    let body = format!("Intro {filler}\n\n# A\n\n{filler}");
    let chunks = chunk_markdown(&body, None, &cfg(1500, Some(300), false, false));
    assert_sections_cover_chunks(&chunks);
    assert_eq!(chunks.len(), 2);
    assert!(chunks[0].heading_path.is_empty());
    assert_eq!(
        (chunks[0].section_line_start, chunks[0].section_line_end),
        (1, 2)
    );
    assert_eq!(chunks[1].heading_path, vec!["A".to_string()]);
    assert_eq!(
        (chunks[1].section_line_start, chunks[1].section_line_end),
        (3, 5)
    );
}

#[test]
fn blank_preamble_does_not_hide_the_first_heading() {
    // a whitespace-only first line must not swallow the
    // first heading into an unnamed section.
    let body = "  \n# A\nbody\n## B\nx";
    let chunks = chunk_markdown(body, None, &cfg(1000, Some(1), false, true));
    assert_eq!(chunks.len(), 2);
    assert!(chunks[0].text.starts_with("# A"));
    assert_eq!(chunks[0].line_start, 2);
    assert_eq!(chunks[0].heading_path, vec!["A".to_string()]);
    assert!(
        chunks[1].text.starts_with("A\n\n## B"),
        "got: {:?}",
        chunks[1].text
    );
    assert_eq!(
        chunks[1].heading_path,
        vec!["A".to_string(), "B".to_string()]
    );
}

#[test]
fn fenced_and_hashtag_lines_do_not_split_chunks() {
    // `#tag` and a `~~~` line inside a ``` fence.
    let body = "# A\n\n#tag not heading\n\n```\n~~~\n# not\n~~~\n```\n\n## B\n\nb";
    let chunks = chunk_markdown(body, None, &cfg(1000, Some(1), false, false));
    let paths: Vec<_> = chunks.iter().map(|c| c.heading_path.clone()).collect();
    assert_eq!(
        paths,
        vec![
            vec!["A".to_string()],
            vec!["A".to_string(), "B".to_string()]
        ]
    );
    assert_eq!((chunks[1].line_start, chunks[1].line_end), (11, 13));
}

#[test]
fn sections_cover_chunks_across_shapes_and_sizes() {
    let para = |n: usize| format!("Para{n} {}", "lorem ipsum ".repeat(n * 7));
    let body = format!(
        "Preamble {p1}\n\n# One\n\n{p2}\n\n## Two\n\n{p3}\n\n```\n# fenced\n```\n\n\
         ### Three\n\n{p9}\n\n## Two\n\n{p1}\n\nSetext\n------\n\n{p5}\n\n# One\n\n{p2}\n",
        p1 = para(1),
        p2 = para(2),
        p3 = para(3),
        p5 = para(5),
        p9 = para(9),
    );
    for max in [120, 300, 700, 2000] {
        for target in [Some(1), Some(max / 2), None] {
            for prepend in [false, true] {
                let chunks = chunk_markdown(&body, None, &cfg(max, target, false, prepend));
                assert!(!chunks.is_empty());
                assert_sections_cover_chunks(&chunks);
                for w in chunks.windows(2) {
                    assert!(w[0].line_start <= w[1].line_start);
                }
            }
        }
    }
}

// ── Chunk::heading_path / heading_level ──────────────────────────

#[test]
fn chunk_with_no_heading_at_all_has_empty_heading_path_and_zero_level() {
    let chunks = chunk_markdown("Hello world", None, &cfg(1000, None, false, false));
    assert_eq!(chunks.len(), 1);
    assert!(chunks[0].heading_path.is_empty());
    assert_eq!(chunks[0].heading_level, 0);
}

#[test]
fn heading_path_and_level_on_a_single_flat_chunk() {
    // A lone "## Heading" section with no ancestors: heading_path is always
    // the FULL path including the section's own heading — unlike the
    // rendered breadcrumb (which excludes it here to avoid duplicating the
    // chunk's own first line), `Chunk::heading_path` is computed the same
    // way regardless of `prepend_heading_path`.
    let chunks = chunk_markdown(
        "## Heading\n\nSome body content.",
        None,
        &cfg(1000, None, false, false),
    );
    assert_eq!(chunks.len(), 1);
    assert_eq!(chunks[0].heading_path, vec!["Heading".to_string()]);
    assert_eq!(chunks[0].heading_level, 2);
}

#[test]
fn heading_path_and_level_across_nesting_levels() {
    // Same body/config as `heading_path_prepended_across_nesting_levels`,
    // but pinning the structured `heading_path`/`heading_level` fields
    // rather than the rendered text breadcrumb.
    let body = "# ares\n\n## Hardware\n\n### GPU Backends\n\nROCm and Vulkan notes.";
    let chunks = chunk_markdown(body, None, &cfg(1500, Some(1), false, false));
    assert_eq!(chunks.len(), 3);

    assert_eq!(chunks[0].heading_path, vec!["ares".to_string()]);
    assert_eq!(chunks[0].heading_level, 1);

    assert_eq!(
        chunks[1].heading_path,
        vec!["ares".to_string(), "Hardware".to_string()]
    );
    assert_eq!(chunks[1].heading_level, 2);

    assert_eq!(
        chunks[2].heading_path,
        vec![
            "ares".to_string(),
            "Hardware".to_string(),
            "GPU Backends".to_string()
        ]
    );
    assert_eq!(chunks[2].heading_level, 3);
}

#[test]
fn heading_path_and_level_on_oversized_section_fragments() {
    // Same scenario as
    // `oversized_section_continuation_fragment_gets_full_heading_path`: the
    // first fragment AND every later continuation fragment carry the full
    // attributed path (unlike the rendered breadcrumb, which differs
    // between them), since `Chunk::heading_path` is always the attributed
    // section's full path.
    let filler = "Lorem ipsum dolor sit amet consectetur. ".repeat(80);
    let body = format!("# Root\n\n## Section\n\n### Big\n\n{filler}");
    let chunks = chunk_markdown(&body, None, &cfg(1000, Some(800), false, false));
    assert!(chunks.len() >= 3);

    let expected_path = vec!["Root".to_string(), "Section".to_string(), "Big".to_string()];
    assert_eq!(chunks[1].heading_path, expected_path);
    assert_eq!(chunks[1].heading_level, 3);
    assert_eq!(chunks[2].heading_path, expected_path);
    assert_eq!(chunks[2].heading_level, 3);
}

#[test]
fn heading_path_and_level_narrow_on_a_merged_chunk() {
    // Same scenario as `merged_chunk_breadcrumb_narrows_to_shared_ancestor`:
    // the merged chunk's `heading_path`/`heading_level` narrow to "Root"
    // (level 1), the deepest heading both merged sections actually share —
    // not "### Blinded" (level 3), which only the FIRST merged section sat
    // under.
    let filler = "Word ".repeat(60);
    let body = format!(
        "# Root\n\n## Conditions\n\n{filler}\n\n### Blinded\n\nBlinded is bad.\n\n## Actions\n\nActions cost."
    );
    let chunks = chunk_markdown(&body, None, &cfg(1500, Some(300), false, false));
    assert_eq!(chunks.len(), 3);
    let merged = &chunks[2];
    assert_eq!(merged.heading_path, vec!["Root".to_string()]);
    assert_eq!(merged.heading_level, 1);
}

// ── chunking.heading_metadata: no merging across headings ───────

fn cfg_isolated(
    max: usize,
    target: Option<usize>,
    prepend_heading_path: bool,
) -> ChunkingConfig {
    ChunkingConfig {
        heading_metadata: true,
        ..cfg(max, target, false, prepend_heading_path)
    }
}

fn s(parts: &[&str]) -> Vec<String> {
    parts.iter().map(|p| p.to_string()).collect()
}

/// `# Chapter` > `## Level 1` > 40 short `###` feats.
fn sibling_feats_body() -> String {
    let mut body = String::from("# Chapter\n\nChapter intro.\n\n## Level 1\n\n");
    for i in 0..40 {
        body.push_str(&format!(
            "### Feat {i}\n\n**Traits** General\n\nYou do thing number {i}.\n\n"
        ));
    }
    body
}

#[test]
fn heading_metadata_on_never_merges_sibling_sections() {
    let body = sibling_feats_body();
    let tree = HeadingTree::parse(&body);
    for (max, target) in [
        (1500, None),
        (1500, Some(1000)),
        (300, Some(200)),
        (60, Some(1)),
    ] {
        for prepend in [false, true] {
            let chunks = chunk_markdown(&body, None, &cfg_isolated(max, target, prepend));
            assert_chunks_stay_within_one_section(&body, &chunks);
            for i in 0..40 {
                let name = format!("Feat {i}");
                let feat = tree
                    .headings()
                    .iter()
                    .find(|h| h.text == name)
                    .expect("feat heading");
                let own: Vec<&Chunk> = chunks
                    .iter()
                    .filter(|c| c.heading_path.last() == Some(&name))
                    .collect();
                assert!(!own.is_empty(), "{name} has no chunk of its own");
                for c in own {
                    assert_eq!(c.heading_path, s(&["Chapter", "Level 1", &name]));
                    assert_eq!(c.heading_level, 3);
                    assert_eq!(
                        (c.section_line_start, c.section_line_end),
                        (feat.line, feat.subtree_end)
                    );
                }
            }
        }
    }

    // At the default sizes every section fits one chunk: the chapter (with
    // its intro), the heading-only `## Level 1`, and one chunk per feat.
    let chunks = chunk_markdown(&body, None, &cfg_isolated(1500, None, true));
    assert_eq!(chunks.len(), 42);
    assert_eq!(chunks[0].heading_path, s(&["Chapter"]));
    assert_eq!(chunks[1].heading_path, s(&["Chapter", "Level 1"]));
    assert_eq!(
        chunks[2].text,
        "Chapter > Level 1\n\n### Feat 0\n\n**Traits** General\n\nYou do thing number 0.\n"
    );
}

#[test]
fn heading_metadata_off_still_merges_sibling_sections() {
    let body = sibling_feats_body();
    let chunks = chunk_markdown(&body, None, &cfg(1500, None, false, true));
    assert!(chunks.len() < 10, "got {} chunks", chunks.len());
    assert_sections_cover_chunks(&chunks);
    assert!(
        chunks.iter().any(|c| c.heading_path.len() < 3),
        "merged feats are attributed to an ancestor"
    );
}

#[test]
fn heading_only_sections_become_their_own_chunks_when_isolated() {
    // A heading directly followed by its first sub-heading has no body.
    // With heading_metadata on it is its own chunk holding the heading
    // line, not folded into the child (which would put the child's heading
    // inside a chunk attributed to the parent).
    let body = "# Chapter\n\n## Level 1\n\n### Feat\n\nFeat body.";
    let chunks = chunk_markdown(body, None, &cfg_isolated(1500, None, true));
    let summary: Vec<_> = chunks
        .iter()
        .map(|c| {
            (
                c.text.as_str(),
                c.heading_path.clone(),
                (c.line_start, c.line_end),
                (c.section_line_start, c.section_line_end),
            )
        })
        .collect();
    assert_eq!(
        summary,
        vec![
            ("# Chapter\n", s(&["Chapter"]), (1, 2), (1, 7)),
            (
                "Chapter\n\n## Level 1\n",
                s(&["Chapter", "Level 1"]),
                (3, 4),
                (3, 7)
            ),
            (
                "Chapter > Level 1\n\n### Feat\n\nFeat body.",
                s(&["Chapter", "Level 1", "Feat"]),
                (5, 7),
                (5, 7)
            ),
        ]
    );
    // Off: the three tiny sections merge into one chunk attributed to the
    // chapter.
    let merged = chunk_markdown(body, None, &cfg(1500, None, false, true));
    assert_eq!(merged.len(), 1);
    assert_eq!(merged[0].heading_path, s(&["Chapter"]));
}

#[test]
fn isolated_preamble_is_never_merged_into_the_first_section() {
    let body = "Intro text.\n\n# A\n\nA body.\n\n## B\n\nB body.";
    let chunks = chunk_markdown(body, None, &cfg_isolated(1000, None, false));
    assert_chunks_stay_within_one_section(body, &chunks);
    assert_eq!(chunks.len(), 3);
    assert!(chunks[0].heading_path.is_empty());
    assert_eq!(
        (chunks[0].section_line_start, chunks[0].section_line_end),
        (1, 2)
    );
}

#[test]
fn isolated_trailing_fragment_does_not_join_the_previous_section() {
    // A tiny `max_chunk_size` makes every section oversized, so a small
    // trailing fragment would otherwise be appended to whatever chunk came
    // last — the previous section's — when none of this section's own
    // fragments were pushed.
    for max in [1, 7, 11, 20, 40] {
        let body = "# A\n\nalpha beta gamma\n\n## B\n\nx\n\n## C\n\ndelta epsilon";
        for prepend in [false, true] {
            let chunks = chunk_markdown(body, None, &cfg_isolated(max, Some(1), prepend));
            assert_chunks_stay_within_one_section(body, &chunks);
        }
    }
}

#[test]
fn tiny_max_chunk_size_never_prepends_an_empty_breadcrumb() {
    // below 12, the breadcrumb budget is 0 characters. A nested
    // continuation chunk must not start with an empty breadcrumb plus
    // "\n\n".
    let body = "# Root\n\n## Section\n\nsome body words here and more";
    for max in 1..12 {
        for heading_metadata in [false, true] {
            let config = ChunkingConfig {
                heading_metadata,
                ..cfg(max, None, false, true)
            };
            for c in chunk_markdown(body, None, &config) {
                assert!(
                    !c.text.starts_with('\n'),
                    "max {max}: chunk {} is {:?}",
                    c.index,
                    c.text
                );
            }
        }
    }
    assert_eq!(format_heading_path(&s(&["A", "B"]), 0), None);
    assert_eq!(
        format_heading_path(&s(&["A", "B"]), 3),
        Some("A >".to_string())
    );
}
