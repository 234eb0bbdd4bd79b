//! What the library relies on in the standard library and in outside crates.
use gray_matter::engine::YAML;
use gray_matter::Matter;
use md_kb_rag::frontmatter::body_line_offset;
use md_kb_rag::heading_text::{cut_folded, is_ignored_in_matching, normalize_heading_text};
use md_kb_rag::markup::PARSER_OPTIONS;
use md_kb_rag::text::{char_width, is_control, is_whitespace, text_eq, trimmed_len};
use pulldown_cmark::{Event, Options, Parser, Tag};
use text_splitter::MarkdownSplitter;
use unicase::UniCase;

fn all_chars() -> impl Iterator<Item = char> {
    (0..=0x10FFFFu32).filter_map(char::from_u32)
}

/// A generator of pseudo-random numbers below a bound.
fn generator(seed: u64) -> impl FnMut(usize) -> usize {
    let mut state = seed;
    move |bound: usize| {
        state ^= state << 13;
        state ^= state >> 7;
        state ^= state << 17;
        (state % bound as u64) as usize
    }
}

#[test]
fn character_classes_are_those_of_unicode() {
    for c in all_chars() {
        assert_eq!(is_whitespace(c), c.is_whitespace(), "{c:?}");
        assert_eq!(is_control(c), c.is_control(), "{c:?}");
        assert_eq!(char_width(c), c.len_utf8(), "{c:?}");
    }
}

#[test]
fn trimmed_sizes_are_those_of_trimmed_texts() {
    let pieces = ["a", "ß", "👩", " ", "\n", "\u{85}", "\u{3000}", "\u{200b}", "", "\t"];
    let mut next = generator(0x2545_F491_4F6C_DD1D);
    for _ in 0..5000 {
        let text: String = (0..next(8)).map(|_| pieces[next(pieces.len())]).collect();
        assert_eq!(trimmed_len(&text), text.trim().len(), "{text:?}");
    }
}

#[test]
fn texts_are_compared_by_their_characters() {
    assert!(text_eq("", ""));
    assert!(text_eq("größe", "größe"));
    assert!(!text_eq("größe", "größen"));
    assert!(!text_eq("é", "e\u{301}"));
}

#[test]
fn folding_a_character_keeps_it_visible() {
    for c in all_chars() {
        let folded = UniCase::new(c.to_string()).to_folded_case();
        assert!(!folded.is_empty(), "{c:?}");
        for f in folded.chars() {
            let blank = c.is_whitespace() || c.is_control();
            assert!(blank || !f.is_whitespace() && !f.is_control(), "{c:?}");
            assert!(is_ignored_in_matching(c) || !is_ignored_in_matching(f), "{c:?}");
            let again = UniCase::new(f.to_string()).to_folded_case();
            assert_eq!(again, f.to_string(), "{c:?}");
        }
        if c.is_ascii() {
            assert_eq!(folded, c.to_ascii_lowercase().to_string());
        }
    }
}

#[test]
fn a_text_is_folded_character_by_character() {
    let chars: Vec<char> = all_chars().collect();
    for part in chars.chunks(97) {
        let text: String = part.iter().collect();
        let one_by_one: String = part
            .iter()
            .map(|c| UniCase::new(c.to_string()).to_folded_case())
            .collect();
        assert_eq!(UniCase::new(text.as_str()).to_folded_case(), one_by_one);
    }
}

#[test]
fn whitespace_has_no_headings() {
    let blank: Vec<char> = all_chars().filter(|c| c.is_whitespace()).collect();
    let mut next = generator(0xE703_7ED1_A0B4_28DB);
    for _ in 0..5000 {
        let text: String = (0..next(12)).map(|_| blank[next(blank.len())]).collect();
        for bits in [0, PARSER_OPTIONS, Options::all().bits()] {
            let options = Options::from_bits_truncate(bits);
            let heading = |event: &Event| matches!(event, Event::Start(Tag::Heading { .. }));
            assert!(!Parser::new_ext(&text, options).any(|event| heading(&event)), "{text:?}");
        }
    }
}

#[test]
fn the_parser_options_are_the_block_extensions() {
    let wanted = Options::ENABLE_TABLES
        | Options::ENABLE_FOOTNOTES
        | Options::ENABLE_STRIKETHROUGH
        | Options::ENABLE_TASKLISTS;
    assert_eq!(PARSER_OPTIONS, wanted.bits());
    assert_eq!(Options::from_bits_truncate(PARSER_OPTIONS), wanted);
}

#[test]
fn markdown_events_are_repeatable_and_headings_have_six_levels() {
    assert_eq!(Parser::new_ext("", Options::from_bits_truncate(PARSER_OPTIONS)).count(), 0);
    let body = "# a\n## b\n### c\n#### d\n##### e\n###### f\n####### g\n\nx\n===\n";
    let events: Vec<_> = Parser::new_ext(body, Options::from_bits_truncate(PARSER_OPTIONS))
        .into_offset_iter()
        .collect();
    let again: Vec<_> = Parser::new_ext(body, Options::from_bits_truncate(PARSER_OPTIONS))
        .into_offset_iter()
        .collect();
    assert_eq!(events, again);
    let levels: Vec<u8> = events
        .iter()
        .filter_map(|(event, _)| match event {
            Event::Start(Tag::Heading { level, .. }) => Some(*level as u8),
            _ => None,
        })
        .collect();
    assert_eq!(levels, vec![1, 2, 3, 4, 5, 6, 1]);
}

fn without_whitespace(text: &str) -> String {
    text.chars().filter(|c| !c.is_whitespace()).collect()
}

#[test]
fn fragments_are_pieces_of_the_text_in_their_order() {
    let pieces = [
        "# Head", "word ", "größer ", "\n", "\n\n", "- item\n", "```\ncode\n```\n", "  ", "| a | b |\n",
        "> quote\n", "x", "👩", "\r\n", "    indented\n", "\t", "\u{3000}", "1. one\n", "## Sub\n",
    ];
    let mut next = generator(0x9E37_79B9_7F4A_7C15);
    for _ in 0..3000 {
        let text: String = (0..next(40)).map(|_| pieces[next(pieces.len())]).collect();
        let max = 1 + next(60);
        let splitter = MarkdownSplitter::new(max);
        let fragments: Vec<(usize, &str)> = splitter.chunk_indices(&text).collect();
        let again: Vec<(usize, &str)> = splitter.chunk_indices(&text).collect();
        assert_eq!(fragments, again);
        let mut end = 0;
        let kept: String = fragments.iter().map(|(_, part)| *part).collect();
        assert_eq!(without_whitespace(&kept), without_whitespace(&text), "{text:?}");
        for (offset, part) in fragments {
            assert!(!part.is_empty());
            assert!(part.chars().count() <= max, "{text:?}");
            assert_eq!(part.trim_end(), part);
            assert!(end <= offset);
            assert_eq!(text.get(offset..offset + part.len()), Some(part));
            end = offset + part.len();
        }
    }
}

#[test]
fn the_offset_leads_from_the_body_to_the_file() {
    let pieces = [
        "---", "--", "--- ", "\n", "\n", "\r\n", "\r", " ", "a", "\u{3000}", "title: x", "----",
    ];
    let mut next = generator(0xD1B5_4A32_D192_ED03);
    for _ in 0..20000 {
        let content: String = (0..next(12)).map(|_| pieces[next(pieces.len())]).collect();
        // A line that ends in the delimiter makes an excerpt of what stands
        // before it, which the parser keeps in the body as well.
        let body = Matter::<YAML>::new().parse(&content).content;
        if content.len() <= 3 {
            assert_eq!(body_line_offset(&content), 0);
            continue;
        }
        let lines: Vec<&str> = content.lines().collect();
        let offset = body_line_offset(&content);
        assert!(offset <= lines.len());
        assert_eq!(lines[offset..].join("\n"), body, "{content:?}");
    }
}

#[test]
fn normalizing_folds_and_cuts() {
    assert_eq!(normalize_heading_text("ÅNGSTRÖM"), "ångström");
    assert_eq!(normalize_heading_text("ﬁnal"), "final");
    assert_eq!(normalize_heading_text("Σίσυφος"), normalize_heading_text("ΣΊΣΥΦΟΣ"));
    // No normalization form is applied: a composed and a decomposed accent are
    // different texts.
    assert_ne!(normalize_heading_text("Café"), normalize_heading_text("Cafe\u{301}"));
    assert_eq!(cut_folded("short"), "short");
    let spaced = format!("{} tail", "x".repeat(199));
    assert_eq!(cut_folded(&spaced), "x".repeat(199));
    assert_eq!(cut_folded(&"y".repeat(200)), "y".repeat(200));
    assert_eq!(cut_folded(&"y".repeat(201)), "y".repeat(200));
    // A text that is not cut keeps its trailing space.
    assert_eq!(cut_folded("a "), "a ");
}
