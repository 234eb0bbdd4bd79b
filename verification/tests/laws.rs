//! The library's laws on concrete documents.
use md_kb_rag::chunk::{
    assemble_chunks, chunk_markdown, format_heading_path, heading_path_budget, split_sections, Chunk,
};
use md_kb_rag::config::ChunkingConfig;
use md_kb_rag::frontmatter::body_line_offset;
use md_kb_rag::heading::HeadingTree;
use md_kb_rag::heading_text::{
    clean_heading_text, heading_prefix_key, is_ignored_in_matching, is_layout_only_char,
    is_rendering_format_char, normalize_heading_text,
};
use md_kb_rag::lines::LineIndex;
use md_kb_rag::markup::Markup;
use md_kb_rag::section::SectionId;

const DOCUMENT: &str = "Intro line.\n\n# Top\n\nTop text.\n\n## One\n\nOne text.\n\n### Deep\n\nDeep \
                        text that is a little longer.\n\n## Two\n\n# Other\n\nOther text.\n";

fn config(max: usize, target: Option<usize>, isolate: bool) -> ChunkingConfig {
    ChunkingConfig {
        max_chunk_size: max,
        target_chunk_size: target,
        prepend_description: false,
        prepend_heading_path: false,
        heading_metadata: isolate,
    }
}

/// A generator of pseudo-random numbers below a bound.
fn generator(seed: u64) -> impl FnMut(usize) -> usize {
    let mut state = seed;
    move |bound: usize| {
        state ^= state << 13;
        state ^= state >> 7;
        state ^= state << 17;
        (state % bound as u64) as usize
    }
}

fn texts(chunks: &[Chunk]) -> Vec<&str> {
    chunks.iter().map(|c| c.text.as_str()).collect()
}

#[test]
fn default_config_merges_with_both_prefixes() {
    let config = ChunkingConfig::default();
    assert_eq!(config.max_chunk_size, 1500);
    assert_eq!(config.target_chunk_size, None);
    assert!(config.prepend_description && config.prepend_heading_path);
    assert!(!config.heading_metadata);
    assert_eq!(config.target(), 1500);
    let other = ChunkingConfig {
        target_chunk_size: Some(7),
        ..config
    };
    assert_eq!(other.target(), 7);
}

#[test]
fn every_byte_is_on_the_line_whose_range_holds_it() {
    let text = "ab\n\n\u{e9}\r\ncd\n";
    let index = LineIndex::new(text);
    assert_eq!(index.line_count(), 5);
    for byte in 0..text.len() {
        let line = index.line_of(byte);
        for n in 1..=index.line_count() {
            let range = index.byte_range(n, n);
            assert_eq!(line == n, range.start <= byte && byte <= range.end);
        }
    }
    assert_eq!(index.line_of(text.len()), 5);
    assert_eq!(index.line_of(usize::MAX), 5);
    assert_eq!(LineIndex::new("").line_of(9), 1);
    assert_eq!(LineIndex::new("\n").line_count(), 2);
}

#[test]
fn a_body_starts_behind_delimiters_and_empty_lines() {
    assert_eq!(body_line_offset("---"), 0);
    assert_eq!(body_line_offset("\n\n"), 0);
    assert_eq!(body_line_offset("--- \u{3000}"), 0);
    assert_eq!(body_line_offset("---\n---\n"), 2);
    assert_eq!(body_line_offset("---\n---\n\r\n\n x"), 4);
    assert_eq!(body_line_offset(" ---\n---\n"), 0);
    assert_eq!(body_line_offset("----\n---\n"), 0);
    assert_eq!(body_line_offset("---\n\n\n"), 3);
}

#[test]
fn events_become_a_hierarchy() {
    // Containers hide headings, an unfinished heading is dropped, an empty one
    // too, and of two headings on a line the first one counts.
    let body = "a\nb\nc\nd\ne\nf\n";
    let word = |s: &str| Markup::Words(s.to_string());
    let events = vec![
        (Markup::HeadingStart(2), 0),
        (word("First"), 0),
        (Markup::SoftLine, 1),
        (Markup::CodeSpan("x  y".to_string()), 1),
        (Markup::HeadingEnd, 1),
        (Markup::HeadingStart(1), 1),
        (word("same line"), 1),
        (Markup::HeadingEnd, 1),
        (Markup::ListStart, 2),
        (Markup::Quote, 2),
        (Markup::HeadingStart(1), 2),
        (word("hidden"), 2),
        (Markup::HeadingEnd, 2),
        (Markup::QuoteEnd, 3),
        (Markup::ListEnd, 3),
        (Markup::Other, 3),
        (Markup::HeadingStart(4), 4),
        (word("Second"), 4),
        (Markup::HardLine, 4),
        (Markup::HeadingEnd, 4),
        (Markup::HeadingStart(3), 6),
        (word("\u{200b} \u{1}"), 6),
        (Markup::HeadingEnd, 6),
        (Markup::Footnote, 8),
        (Markup::FootnoteEnd, 8),
        (Markup::FootnoteEnd, 8),
        (Markup::HeadingStart(3), 8),
        (word("Third"), 8),
        (Markup::HeadingEnd, 8),
        (Markup::HeadingStart(1), 10),
        (word("open"), 10),
    ];
    let tree = HeadingTree::from_events(body, &events);
    let found: Vec<_> = tree
        .headings()
        .iter()
        .map(|h| (h.level, h.text.as_str(), h.line, h.parent, h.section_end, h.subtree_end))
        .collect();
    assert_eq!(
        found,
        vec![
            (2, "First x y", 1, None, 2, 7),
            (4, "Second", 3, Some(0), 4, 4),
            (3, "Third", 5, Some(0), 7, 7),
        ]
    );
    assert_eq!(tree.preamble_end(), 0);
    assert_eq!(tree.path(None), Vec::<String>::new());
}

#[test]
fn being_nested_is_being_inside() {
    let tree = HeadingTree::parse(DOCUMENT);
    let headings = tree.headings();
    assert_eq!(headings.len(), 5);
    for (i, a) in headings.iter().enumerate() {
        for (j, b) in headings.iter().enumerate() {
            let nested = tree.common_ancestor(Some(i), Some(j)) == Some(i);
            assert_eq!(nested, a.line <= b.line && b.line <= a.subtree_end);
            assert_eq!(
                tree.common_ancestor(Some(i), Some(j)),
                tree.common_ancestor(Some(j), Some(i))
            );
        }
    }
}

#[test]
fn sections_follow_each_other_without_a_gap() {
    let tree = HeadingTree::parse(DOCUMENT);
    let sections = split_sections(DOCUMENT, &tree);
    assert_eq!(sections.len(), 6);
    assert_eq!(sections[0].line_start, 1);
    assert_eq!(sections[0].heading, None);
    for pair in sections.windows(2) {
        assert_eq!(pair[0].line_end + 1, pair[1].line_start);
    }
    assert_eq!(sections[5].line_end, tree.line_count());
    let lines: Vec<&str> = sections.iter().map(|s| s.text).collect();
    assert_eq!(lines.join("\n"), DOCUMENT);
    for section in &sections {
        assert_eq!(
            &DOCUMENT[section.byte_start..section.byte_start + section.text.len()],
            section.text
        );
    }
}

#[test]
fn merged_sections_cover_both() {
    let tree = HeadingTree::parse(DOCUMENT);
    let mut ids = vec![SectionId::Root, SectionId::Preamble];
    ids.extend((0..5).map(SectionId::Heading));
    for &a in &ids {
        for &b in &ids {
            let both = a.merge(b, &tree);
            assert_eq!(both, b.merge(a, &tree));
            for id in [a, b] {
                let (first, last) = id.line_range(&tree);
                assert!(both.line_range(&tree).0 <= first && last <= both.line_range(&tree).1);
            }
        }
    }
    assert_eq!(
        SectionId::Heading(2).merge(SectionId::Heading(3), &tree),
        SectionId::Heading(0)
    );
}

#[test]
fn fragments_are_merged_by_their_sizes() {
    // The section is split into a small piece, a large one and two small ones.
    let large = "L".repeat(250);
    let body = format!("# A\n{large}\nmid\nend");
    let tree = HeadingTree::parse(&body);
    let sections = split_sections(&body, &tree);
    assert_eq!(sections.len(), 1);
    let fragments = vec![vec![
        (0, "# A".to_string()),
        (4, large.clone()),
        (255, "mid".to_string()),
        (259, "end".to_string()),
    ]];
    // The heading joins the large piece, though both do not fit. The small ones
    // join each other, and are a chunk since the last one has no room.
    let chunks = assemble_chunks(&body, None, &config(255, None, false), &tree, &fragments);
    let merged = format!("# A\n\n{large}");
    assert_eq!(texts(&chunks), vec![merged.as_str(), "mid\n\nend"]);
    assert_eq!((chunks[0].line_start, chunks[0].line_end), (1, 2));
    assert_eq!((chunks[1].line_start, chunks[1].line_end), (3, 4));
    assert_eq!(chunks[1].heading_path, vec!["A"]);
    // With room for them they join the last chunk.
    let small = "S".repeat(180);
    let body = format!("# A\n{small}{small}\nend");
    let tree = HeadingTree::parse(&body);
    let fragments = vec![vec![
        (0, format!("# A\n{small}")),
        (184, "S".repeat(150)),
        (365, "end".to_string()),
    ]];
    let chunks = assemble_chunks(&body, None, &config(367, None, true), &tree, &fragments);
    assert_eq!(chunks.len(), 1);
    let rest = "S".repeat(150);
    assert_eq!(chunks[0].text, format!("# A\n{small}\n\n{rest}\n\nend"));
    assert_eq!((chunks[0].line_start, chunks[0].line_end), (1, 3));
}

#[test]
fn blank_lines_count_when_sections_are_put_together() {
    // The blank lines at the end of the first section stand inside the merged
    // chunk, which has 15 bytes.
    let body = "# A\nx\n\n\n\n# B\ny";
    for target in [12, 14] {
        let chunks = chunk_markdown(body, None, &config(100, Some(target), false));
        assert_eq!(texts(&chunks), vec!["# A\nx\n\n\n", "# B\ny"]);
    }
    let chunks = chunk_markdown(body, None, &config(100, Some(15), false));
    assert_eq!(texts(&chunks), vec!["# A\nx\n\n\n\n\n# B\ny"]);
}

#[test]
fn a_body_of_whitespace_has_no_chunks() {
    for body in ["", " ", "\n\n", "\t\r\n    \n", "\u{a0}\n\u{3000}\u{2028}\u{85}", "\u{b}\u{c}"] {
        for max in [0, 1, 100] {
            for isolate in [false, true] {
                assert!(chunk_markdown(body, Some("d"), &config(max, None, isolate)).is_empty());
            }
        }
        assert!(HeadingTree::parse(body).headings().is_empty());
    }
}

#[test]
fn line_ends_do_not_move_the_body() {
    let parts = ["---", "--", "\n", "\n", "\n\n", " ", "a", "key: v\n", "---\n"];
    let mut next = generator(0xA076_1D64_78BD_642F);
    for _ in 0..5000 {
        let text: String = (0..next(10)).map(|_| parts[next(parts.len())]).collect();
        if text.len() > 3 {
            let crlf = text.replace('\n', "\r\n");
            assert_eq!(body_line_offset(&crlf), body_line_offset(&text), "{text:?}");
        }
    }
    // In a file of three bytes or less there is no body to find.
    assert_eq!(body_line_offset("\n\n\n"), 0);
    assert_eq!(body_line_offset("\r\n\r\n\r\n"), 3);
}

#[test]
fn merging_sections_does_not_depend_on_the_grouping() {
    let tree = HeadingTree::parse(DOCUMENT);
    let mut ids = vec![SectionId::Root, SectionId::Preamble];
    ids.extend((0..tree.headings().len()).map(SectionId::Heading));
    for &a in &ids {
        for &b in &ids {
            assert_eq!(a.merge(b, &tree), b.merge(a, &tree));
            for &c in &ids {
                let left = a.merge(b, &tree).merge(c, &tree);
                assert_eq!(left, a.merge(b.merge(c, &tree), &tree));
            }
        }
    }
    // "Deep" lies under "One", and with "Two" under "Top".
    let deep = SectionId::Heading(2);
    assert_eq!(deep.merge(SectionId::Heading(1), &tree), SectionId::Heading(1));
    assert_eq!(deep.merge(SectionId::Heading(3), &tree), SectionId::Heading(0));
    assert_eq!(deep.merge(SectionId::Heading(4), &tree), SectionId::Root);
}

#[test]
fn only_the_first_chunk_of_a_section_is_under_the_parent() {
    let long = "Some words that go on. ".repeat(30);
    let body = format!("{long}\n\n# Top\n\n## Sub\n\n{long}\n\n{long}\n\n# Next\n\n{long}");
    let config = ChunkingConfig {
        prepend_heading_path: true,
        ..config(400, None, true)
    };
    let chunks = chunk_markdown(&body, None, &config);
    let mut seen: Vec<Vec<String>> = Vec::new();
    for chunk in &chunks {
        let path = &chunk.heading_path;
        if path.is_empty() {
            assert!(chunk.text.starts_with("Some words"));
        } else if seen.contains(path) {
            assert!(chunk.text.starts_with(&format!("{}\n\nSome words", path.join(" > "))));
        } else if path.len() == 2 {
            assert!(chunk.text.starts_with("Top\n\n## Sub\n\n"));
        } else {
            assert!(chunk.text.starts_with('#'));
        }
        seen.push(path.clone());
    }
    let sub = vec!["Top".to_string(), "Sub".to_string()];
    assert!(seen.iter().filter(|path| **path == sub).count() > 2);
}

#[test]
fn indentation_counts_when_a_last_fragment_is_put_to_a_chunk() {
    let large = format!("# A\n{}", "L".repeat(250));
    let tail = "    b\n    c";
    let body = format!("{large}\n\n\n\n{tail}");
    let tree = HeadingTree::parse(&body);
    let fragments = vec![vec![(0, large.clone()), (258, tail.to_string())]];
    // Together they have 254, 2 and 11 bytes.
    let chunks = assemble_chunks(&body, None, &config(266, None, true), &tree, &fragments);
    assert_eq!(texts(&chunks), vec![large.as_str(), tail]);
    let chunks = assemble_chunks(&body, None, &config(267, None, true), &tree, &fragments);
    assert_eq!(texts(&chunks), vec![format!("{large}\n\n{tail}")]);
}

fn without_whitespace(text: &str) -> String {
    text.chars().filter(|c| !c.is_whitespace()).collect()
}

#[test]
fn chunks_keep_their_sizes_their_order_and_the_text() {
    let parts = [
        "# A\n", "## B\n", "### C\n", "x\n", "some words\n", "\n", "\n\n\n", "    code\n\n", "größer ",
        "- item\n", "a sentence that goes on for a little while, and then ends.\n", "\t", "# \n",
    ];
    let mut next = generator(0x2545_F491_4F6C_DD1D);
    for round in 0..3000 {
        let body: String = (0..next(40)).map(|_| parts[next(parts.len())]).collect();
        let max = 1 + next(if round % 2 == 0 { 60 } else { 400 });
        let target = 1 + next(max);
        let isolate = next(2) == 0;
        let config = ChunkingConfig {
            prepend_heading_path: next(2) == 0,
            ..config(max, Some(target), isolate)
        };
        let chunks = chunk_markdown(&body, None, &config);
        let tree = HeadingTree::parse(&body);
        let sections = split_sections(&body, &tree);
        let split = sections.iter().any(|s| s.text.trim().len() > max * 3 / 4);
        let small = sections.iter().all(|s| s.text.trim().len() <= target);
        let mut end = 0;
        for (i, chunk) in chunks.iter().enumerate() {
            assert_eq!(chunk.index, i);
            assert!(end <= chunk.line_start && chunk.line_start <= chunk.line_end);
            assert!(chunk.section_line_start <= chunk.line_start);
            assert!(chunk.line_end <= chunk.section_line_end);
            end = chunk.line_end;
            assert_eq!(chunk.heading_level == 0, chunk.heading_path.is_empty());
            assert!(chunk.heading_level <= 6);
            let size = chunk.text.trim().chars().count();
            if !config.prepend_heading_path {
                assert!(size <= max + if split { 201 } else { 0 }, "{body:?}");
                assert!(!small || chunk.text.trim().len() <= target, "{body:?}");
            } else if !split {
                // No section of this kind starts with whitespace but the preamble,
                // and no heading path is put before that.
                assert!(size <= max, "{body:?}");
            }
        }
        if !config.prepend_heading_path {
            let all: String = texts(&chunks).concat();
            assert_eq!(without_whitespace(&all), without_whitespace(&body));
        }
    }
}

#[test]
fn what_a_heading_is_compared_by_is_compared_by_itself() {
    let parts = [
        "a", "B", " ", "\u{a0}", "ẞ", "İ", "ŉ", "\u{200d}", "\u{ad}", "\t", "\u{1f}", "\u{fe0f}", "Σ",
        "word", "ﬃ", "\u{2066}", "\u{feff}", "\u{345}",
    ];
    let mut next = generator(0x9E37_79B9_7F4A_7C15);
    for _ in 0..2000 {
        let text: String = (0..next(260)).map(|_| parts[next(parts.len())]).collect();
        let normal = normalize_heading_text(&text);
        assert_eq!(normal.trim(), normal);
        assert!(normal.chars().count() <= 200);
        assert!(!normal.chars().any(|c| c.is_control() || is_ignored_in_matching(c)));
        assert_eq!(normalize_heading_text(&normal), normal);
        assert_eq!(normalize_heading_text(&clean_heading_text(&text)), normal);
    }
    // The 200th folded character is a space, which is not kept.
    let text = format!("{} ẞ", "x".repeat(199));
    assert_eq!(normalize_heading_text(&text), "x".repeat(199));
    assert_eq!(normalize_heading_text("A\u{200d}ẞ\t B"), "ass b");
}

#[test]
fn a_last_fragment_crosses_a_heading_only_if_it_may() {
    let body = "# A\naaaa\n# B\nbbbb";
    let tree = HeadingTree::parse(body);
    let fragments = vec![
        vec![(0, "# A\naaaa".to_string())],
        vec![(0, "# B\nbbbb".to_string())],
    ];
    let chunks = assemble_chunks(body, None, &config(7, None, false), &tree, &fragments);
    assert_eq!(texts(&chunks), vec!["# A\naaaa", "# B\nbbbb"]);
    let fragments = vec![vec![(0, "a".to_string())], vec![(0, "b".to_string())]];
    let joined = assemble_chunks(body, None, &config(7, None, false), &tree, &fragments);
    assert_eq!(texts(&joined), vec!["a\n\nb"]);
    assert_eq!(joined[0].heading_path, Vec::<String>::new());
    assert_eq!((joined[0].section_line_start, joined[0].section_line_end), (1, 4));
    let apart = assemble_chunks(body, None, &config(7, None, true), &tree, &fragments);
    assert_eq!(texts(&apart), vec!["a", "b"]);
    assert_eq!(apart[1].heading_path, vec!["B"]);
}

#[test]
fn chunks_keep_the_text_of_their_sections() {
    let tree = HeadingTree::parse(DOCUMENT);
    let whole: Vec<&str> = split_sections(DOCUMENT, &tree).iter().map(|s| s.text).collect();
    for target in [None, Some(1), Some(40), Some(80)] {
        for isolate in [false, true] {
            let chunks = chunk_markdown(DOCUMENT, None, &config(1000, target, isolate));
            assert_eq!(texts(&chunks).join("\n\n"), whole.join("\n\n"));
            for (i, chunk) in chunks.iter().enumerate() {
                assert_eq!(chunk.index, i);
            }
        }
    }
}

#[test]
fn isolated_chunks_are_sections_whatever_the_target() {
    let tree = HeadingTree::parse(DOCUMENT);
    let whole: Vec<&str> = split_sections(DOCUMENT, &tree).iter().map(|s| s.text).collect();
    for target in [None, Some(1), Some(1000)] {
        let chunks = chunk_markdown(DOCUMENT, None, &config(1000, target, true));
        assert_eq!(texts(&chunks), whole);
        assert_eq!(chunks[4].text, "## Two\n");
        assert_eq!(chunks[4].heading_path, vec!["Top", "Two"]);
        assert_eq!(chunks[0].heading_level, 0);
    }
}

#[test]
fn the_breadcrumb_is_the_start_of_the_path_and_fits() {
    let config = ChunkingConfig {
        prepend_heading_path: true,
        ..config(80, Some(1), false)
    };
    for chunk in chunk_markdown(DOCUMENT, None, &config) {
        if chunk.heading_path.len() > 1 {
            let (prefix, _) = chunk.text.split_once("\n\n").unwrap();
            assert!(chunk.heading_path.join(" > ").starts_with(prefix));
            assert!(!prefix.is_empty());
            assert!(prefix.chars().count() + 2 <= heading_path_budget(80));
        }
        assert!(chunk.text.trim().chars().count() <= 80);
    }
    let all = chunk_markdown(DOCUMENT, Some("About."), &ChunkingConfig {
        prepend_description: true,
        ..config
    });
    assert!(all[3].text.starts_with("Top > One\n\nAbout.\n\n### Deep"));
    // Behind what is put before it, the text of a chunk is its section.
    let tree = HeadingTree::parse(DOCUMENT);
    for (chunk, section) in all.iter().zip(split_sections(DOCUMENT, &tree)) {
        assert!(chunk.text.ends_with(section.text));
    }
}

#[test]
fn the_budget_is_a_quarter_up_to_a_limit() {
    assert_eq!(heading_path_budget(0), 0);
    assert_eq!(heading_path_budget(3), 0);
    assert_eq!(heading_path_budget(7), 1);
    assert_eq!(heading_path_budget(799), 199);
    assert_eq!(heading_path_budget(800), 200);
    assert_eq!(heading_path_budget(usize::MAX), 200);
    let path = vec!["Größe".to_string(), "B".to_string()];
    assert_eq!(format_heading_path(&path, 4), Some("Größ".to_string()));
    assert_eq!(format_heading_path(&path, 9), Some("Größe > B".to_string()));
    assert_eq!(format_heading_path(&Vec::new(), 9), None);
}

#[test]
fn cleaned_text_is_clean() {
    let pieces = [
        "ab", " ", "\u{a0}", "\u{200d}", "\u{ad}", "\u{1f}", "\n", "ß", "\u{fe0f}", "x", "\u{200b}", "  ",
    ];
    let mut state: u64 = 0x1234_5678_9ABC_DEF1;
    for round in 0..2000 {
        let mut text = String::new();
        for _ in 0..(round % 400) {
            state ^= state << 13;
            state ^= state >> 7;
            state ^= state << 17;
            text.push_str(pieces[(state % pieces.len() as u64) as usize]);
        }
        let clean = clean_heading_text(&text);
        assert_eq!(clean_heading_text(&clean), clean);
        assert!(!clean.chars().any(|c| c.is_control() || is_layout_only_char(c)));
        assert!(clean.chars().count() <= 400);
        assert!(clean.chars().filter(|&c| !is_rendering_format_char(c)).count() <= 200);
        assert!(!clean.contains("  ") && clean.trim() == clean);
        assert!(clean.split(' ').all(|w| clean.is_empty()
            || w.chars().any(|c| !is_ignored_in_matching(c))));
        // The stored text is compared like the heading itself.
        let key = normalize_heading_text(&text);
        assert_eq!(normalize_heading_text(&clean), key);
        assert!(key.chars().count() <= 200 && !key.chars().any(|c| c.is_control()));
    }
}

#[test]
fn keys_tell_paths_apart() {
    let a = heading_prefix_key(&["A", "b c"]);
    assert_eq!(a, "a\u{1f}b c");
    assert_ne!(a, heading_prefix_key(&["A b", "c"]));
    assert_ne!(a, heading_prefix_key(&["A", "b", "c"]));
    assert_eq!(a, heading_prefix_key(&["a", " B\tC "]));
    assert_eq!(heading_prefix_key(&[]), "");
    // An empty path and a path of one empty segment have the same key.
    assert_eq!(heading_prefix_key(&[""]), "");
    assert_eq!(heading_prefix_key(&["", ""]), "\u{1f}");
}
