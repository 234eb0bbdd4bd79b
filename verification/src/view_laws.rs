//! What the models of values say of the values.
use vstd::prelude::*;

use crate::chunk::{
    chunk_views, description_view, fragment_views, section_views, Chunk, Section,
};
use crate::heading::{heading_views, Heading};
use crate::json::{list_view, Json, JsonObject, JsonView};
use crate::markup::{event_views, Markup, MarkupView};
use crate::text::views;

verus! {

/// The model of a chunk says what its fields say, and that of a list of chunks says
/// it of each of them.
pub proof fn chunks_are_told_by_their_fields(chunks: Seq<Chunk>, i: int)
    requires
        0 <= i < chunks.len(),
    ensures
        chunk_views(chunks).len() == chunks.len(),
        ({
            let view = chunk_views(chunks)[i];
            let chunk = chunks[i];
            &&& view.text == chunk.text@
            &&& view.index == chunk.index
            &&& view.line_start == chunk.line_start
            &&& view.line_end == chunk.line_end
            &&& view.heading_level == chunk.heading_level
            &&& view.section_line_start == chunk.section_line_start
            &&& view.section_line_end == chunk.section_line_end
            &&& view.heading_path.len() == chunk.heading_path@.len()
            &&& forall|k: int|
                0 <= k < chunk.heading_path@.len() ==> #[trigger] view.heading_path[k]
                    == chunk.heading_path@[k]@
        }),
{
}

/// The model of a heading says what its fields say, and that of a list of headings
/// says it of each of them.
pub proof fn headings_are_told_by_their_fields(headings: Seq<Heading>, i: int)
    requires
        0 <= i < headings.len(),
    ensures
        heading_views(headings).len() == headings.len(),
        ({
            let view = heading_views(headings)[i];
            let heading = headings[i];
            &&& view.level == heading.level
            &&& view.text == heading.text@
            &&& view.line == heading.line
            &&& view.section_end == heading.section_end
            &&& view.subtree_end == heading.subtree_end
            &&& heading.parent is None <==> view.parent is None
            &&& heading.parent matches Some(p) ==> view.parent == Some(p as int)
        }),
{
}

/// The model of a section says what its fields say, and that of a list of sections
/// says it of each of them.
pub proof fn sections_are_told_by_their_fields(sections: Seq<Section>, i: int)
    requires
        0 <= i < sections.len(),
    ensures
        section_views(sections).len() == sections.len(),
        ({
            let view = section_views(sections)[i];
            let section = sections[i];
            &&& view.text == section.text@
            &&& view.byte_start == section.byte_start
            &&& view.line_start == section.line_start
            &&& view.line_end == section.line_end
            &&& section.heading is None <==> view.heading is None
            &&& section.heading matches Some(h) ==> view.heading == Some(h as int)
        }),
{
}

/// The models of texts and fragments are their characters and places.
pub proof fn texts_are_told_by_their_characters(
    texts: Seq<String>,
    fragments: Seq<(usize, String)>,
    description: Option<&str>,
)
    ensures
        views(texts).len() == texts.len(),
        forall|i: int| 0 <= i < texts.len() ==> #[trigger] views(texts)[i] == texts[i]@,
        fragment_views(fragments).len() == fragments.len(),
        forall|i: int|
            0 <= i < fragments.len() ==> (#[trigger] fragment_views(fragments)[i]).0
                == fragments[i].0 && fragment_views(fragments)[i].1 == fragments[i].1@,
        description is None <==> description_view(description) is None,
        description matches Some(text) ==> description_view(description) == Some(text@),
{
}

/// The model of an event says which event it is, its level or its text, and where
/// it starts.
pub proof fn events_are_told_by_their_kinds(events: Seq<(Markup, usize)>, i: int)
    requires
        0 <= i < events.len(),
    ensures
        event_views(events).len() == events.len(),
        event_views(events)[i].1 == events[i].1,
        match events[i].0 {
            Markup::Quote => event_views(events)[i].0 is Quote,
            Markup::QuoteEnd => event_views(events)[i].0 is QuoteEnd,
            Markup::ListStart => event_views(events)[i].0 is ListStart,
            Markup::ListEnd => event_views(events)[i].0 is ListEnd,
            Markup::Footnote => event_views(events)[i].0 is Footnote,
            Markup::FootnoteEnd => event_views(events)[i].0 is FootnoteEnd,
            Markup::HeadingStart(level) => event_views(events)[i].0 == MarkupView::HeadingStart(
                level,
            ),
            Markup::HeadingEnd => event_views(events)[i].0 is HeadingEnd,
            Markup::Words(text) => event_views(events)[i].0 == MarkupView::Words(text@),
            Markup::CodeSpan(text) => event_views(events)[i].0 == MarkupView::CodeSpan(text@),
            Markup::SoftLine => event_views(events)[i].0 is SoftLine,
            Markup::HardLine => event_views(events)[i].0 is HardLine,
            Markup::Other => event_views(events)[i].0 is Other,
        },
{
}

/// The model of a JSON value says of which kind it is, and what it holds.
pub proof fn json_values_are_told_apart(
    b: bool,
    number: String,
    text: String,
    items: Vec<Json>,
    object: JsonObject,
)
    ensures
        Json::Null@ is Null,
        Json::Bool(b)@ == JsonView::Bool(b),
        Json::Number(number)@ == JsonView::Number(number@),
        Json::Text(text)@ == JsonView::Text(text@),
        Json::Object(object)@ == JsonView::Object(object@),
        Json::Array(items)@ is Array,
        Json::Array(items)@->Array_0.len() == items@.len(),
        forall|i: int|
            0 <= i < items@.len() ==> #[trigger] Json::Array(items)@->Array_0[i] == items@[i]@,
        list_view(items@).len() == items@.len(),
{
    assert(Json::Array(items)@->Array_0 == list_view(items@));
}

} // verus!
