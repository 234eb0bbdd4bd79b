//! Markdown as a sequence of events.
use pulldown_cmark::Event::{Code, End, HardBreak, SoftBreak, Start, Text};
use pulldown_cmark::Tag::{BlockQuote, FootnoteDefinition, Heading, List};
use pulldown_cmark::{Options, Parser, TagEnd};
use vstd::prelude::*;

use crate::markup::Markup::{
    CodeSpan, Footnote, FootnoteEnd, HardLine, HeadingEnd, HeadingStart, ListEnd, ListStart, Other,
    Quote, QuoteEnd, SoftLine, Words,
};
use crate::text::trim;

verus! {

/// One step through a markdown document, as far as headings depend on it.
#[derive(Clone, Debug, PartialEq, Eq)]
pub enum Markup {
    /// A block quote starts.
    Quote,
    /// A block quote ends.
    QuoteEnd,
    /// A list starts.
    ListStart,
    /// A list ends.
    ListEnd,
    /// The definition of a footnote starts.
    Footnote,
    /// The definition of a footnote ends.
    FootnoteEnd,
    /// A heading of a level starts.
    HeadingStart(u8),
    /// A heading ends.
    HeadingEnd,
    /// Text.
    Words(String),
    /// The content of a code span.
    CodeSpan(String),
    /// A line break in the source.
    SoftLine,
    /// A line break in the rendered text.
    HardLine,
    /// Anything else.
    Other,
}

/// What a [`Markup`] says, with texts as sequences of characters.
pub enum MarkupView {
    Quote,
    QuoteEnd,
    ListStart,
    ListEnd,
    Footnote,
    FootnoteEnd,
    HeadingStart(u8),
    HeadingEnd,
    Words(Seq<char>),
    CodeSpan(Seq<char>),
    SoftLine,
    HardLine,
    Other,
}

impl View for Markup {
    type V = MarkupView;

    open spec fn view(&self) -> MarkupView {
        match *self {
            Markup::Quote => MarkupView::Quote,
            Markup::QuoteEnd => MarkupView::QuoteEnd,
            Markup::ListStart => MarkupView::ListStart,
            Markup::ListEnd => MarkupView::ListEnd,
            Markup::Footnote => MarkupView::Footnote,
            Markup::FootnoteEnd => MarkupView::FootnoteEnd,
            Markup::HeadingStart(level) => MarkupView::HeadingStart(level),
            Markup::HeadingEnd => MarkupView::HeadingEnd,
            Markup::Words(text) => MarkupView::Words(text@),
            Markup::CodeSpan(text) => MarkupView::CodeSpan(text@),
            Markup::SoftLine => MarkupView::SoftLine,
            Markup::HardLine => MarkupView::HardLine,
            Markup::Other => MarkupView::Other,
        }
    }
}

/// What a list of events says, each with the byte it starts at.
pub open spec fn event_views(events: Seq<(Markup, usize)>) -> Seq<(MarkupView, usize)> {
    events.map_values(|e: (Markup, usize)| (e.0@, e.1))
}

/// The block extensions of GitHub Flavored Markdown: tables, footnotes,
/// strikethrough and task lists, as the bits of `pulldown_cmark::Options`.
///
/// Not all extensions: smart punctuation would rewrite the quotes of a heading,
/// heading attributes and math would take text out of it, and metadata blocks
/// could swallow the start of a body that opens with `---`.
pub const PARSER_OPTIONS: u32 = 2 + 4 + 8 + 16;

/// The events that `pulldown_cmark` reports for `body`, each with the byte it
/// starts at.
pub uninterp spec fn markdown_events(body: Seq<char>, options: u32) -> Seq<(MarkupView, usize)>;

/// `pulldown_cmark::Parser::new_ext(..).into_offset_iter()`: the events of
/// `body`, parsed with the extensions in `options`. The parser reports the same
/// events for the same text, a heading's level is one of 1 to 6, there are no
/// events in an empty text, and no headings in one of whitespace alone: a heading
/// takes a `#`, or a line of `=` or `-`.
#[verifier::external_body]
pub(crate) fn parse_markdown(body: &str, options: u32) -> (r: Vec<(Markup, usize)>)
    ensures
        event_views(r@) == markdown_events(body@, options),
        forall|i: int|
            0 <= i < r@.len() ==> (#[trigger] r@[i].0 matches Markup::HeadingStart(level) ==> 1
                <= level <= 6),
        body@.len() == 0 ==> r@.len() == 0,
        trim(body@).len() == 0 ==> forall|i: int|
            0 <= i < r@.len() ==> !(#[trigger] r@[i].0 is HeadingStart),
{
    let parser = Parser::new_ext(body, Options::from_bits_truncate(options));
    parser.into_offset_iter().map(|(event, range)| (match event {
        Start(BlockQuote(_)) => Quote,
        End(TagEnd::BlockQuote(_)) => QuoteEnd,
        Start(List(_)) => ListStart,
        End(TagEnd::List(_)) => ListEnd,
        Start(FootnoteDefinition(_)) => Footnote,
        End(TagEnd::FootnoteDefinition) => FootnoteEnd,
        Start(Heading { level, .. }) => HeadingStart(level as u8),
        End(TagEnd::Heading(_)) => HeadingEnd,
        Text(text) => Words(text.to_string()),
        Code(text) => CodeSpan(text.to_string()),
        SoftBreak => SoftLine, HardBreak => HardLine, _ => Other,
    }, range.start)).collect()
}

} // verus!
