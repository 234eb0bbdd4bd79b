//! What holds of the headings of every document.
use vstd::prelude::*;

use crate::heading::{
    above, common, common_ancestor_is_deepest, lemma_above_bound, lemma_closing, lemma_enclosing,
    lemma_parent, outline, path_of, preamble_end, scanned, well_placed, FoundView,
    HeadingView,
};
use crate::heading_text::clean;
use crate::lines::line_at;
use crate::markup::MarkupView;
use crate::section::{
    section_first, section_last, section_level, section_path, SectionId,
};

verus! {

/// Whether `chain` goes down from the top of the hierarchy to heading `i`, each
/// heading in it the parent of the next.
pub open spec fn leads_to(headings: Seq<HeadingView>, chain: Seq<int>, i: int) -> bool {
    &&& chain.len() > 0
    &&& chain.last() == i
    &&& headings[chain[0]].parent is None
    &&& forall|a: int, b: int|
        0 <= a && b == a + 1 && b < chain.len() ==> headings[#[trigger] chain[b]].parent == Some(
            #[trigger] chain[a],
        )
    &&& forall|a: int| 0 <= a < chain.len() ==> 0 <= #[trigger] chain[a] < headings.len()
}

proof fn lemma_chain(headings: Seq<HeadingView>, count: nat, i: int) -> (chain: Seq<int>)
    requires
        well_placed(headings, count),
        0 <= i < headings.len(),
    ensures
        leads_to(headings, chain, i),
        path_of(headings, Some(i)) == chain.map_values(|x: int| headings[x].text),
        forall|x: int| above(headings, x, Some(i)) <==> #[trigger] chain.contains(x),
    decreases i,
{
    lemma_parent(headings, count, i);
    match headings[i].parent {
        None => {
            let chain = seq![i];
            assert(path_of(headings, None) =~= seq![]);
            assert(path_of(headings, Some(i)) =~= chain.map_values(|x: int| headings[x].text));
            assert forall|x: int| above(headings, x, Some(i)) <==> #[trigger] chain.contains(x) by {
                assert(chain[0] == i);
                assert(!above(headings, x, None));
            }
            chain
        },
        Some(p) => {
            let rest = lemma_chain(headings, count, p);
            let chain = rest.push(i);
            assert forall|a: int, b: int|
                0 <= a && b == a + 1 && b < chain.len() implies headings[#[trigger] chain[b]].parent
                == Some(#[trigger] chain[a]) by {
                if b < rest.len() {
                    assert(rest[b] == chain[b] && rest[a] == chain[a]);
                }
            }
            assert(path_of(headings, Some(i)) =~= chain.map_values(|x: int| headings[x].text));
            assert forall|x: int| above(headings, x, Some(i)) <==> #[trigger] chain.contains(x) by {
                assert(above(headings, x, Some(i)) <==> i == x || above(headings, x, Some(p)));
                assert(above(headings, x, Some(p)) <==> rest.contains(x));
                if rest.contains(x) {
                    let k = choose|k: int| 0 <= k < rest.len() && rest[k] == x;
                    assert(chain[k] == x);
                }
                assert(chain[rest.len() as int] == i);
                if chain.contains(x) && x != i {
                    let k = choose|k: int| 0 <= k < chain.len() && chain[k] == x;
                    assert(rest[k] == x);
                }
            }
            chain
        },
    }
}

/// The path of a heading has the texts of all headings from the top of the
/// hierarchy down to it, each one nested under the one before: those that are
/// above it, and no others.
pub proof fn path_holds_all_ancestors(headings: Seq<HeadingView>, count: nat, i: int)
    requires
        well_placed(headings, count),
        0 <= i < headings.len(),
    ensures
        exists|chain: Seq<int>| #[trigger]
            leads_to(headings, chain, i) && path_of(headings, Some(i)) == chain.map_values(
                |x: int| headings[x].text,
            ) && forall|x: int| above(headings, x, Some(i)) <==> #[trigger] chain.contains(x),
{
    let chain = lemma_chain(headings, count, i);
}

/// The path of a heading ends with its text. Before that stands the path of its
/// parent, and nothing if it has none.
pub proof fn path_goes_on_from_the_parent(headings: Seq<HeadingView>, count: nat, i: int)
    requires
        well_placed(headings, count),
        0 <= i < headings.len(),
    ensures
        path_of(headings, Some(i)).len() > 0,
        path_of(headings, Some(i)).last() == headings[i].text,
        match headings[i].parent {
            Some(p) => path_of(headings, Some(i)).drop_last() == path_of(headings, Some(p)),
            None => path_of(headings, Some(i)).len() == 1,
        },
        path_of(headings, None).len() == 0,
{
    lemma_parent(headings, count, i);
    assert(path_of(headings, None).len() == 0);
    if let Some(p) = headings[i].parent {
        assert(path_of(headings, Some(i)).drop_last() =~= path_of(headings, Some(p)));
    }
}

/// What two headings have in common is the last heading that is in the chains of
/// both: one heading of both chains, with every other such heading before it.
pub proof fn common_ancestor_is_in_both_chains(
    headings: Seq<HeadingView>,
    count: nat,
    i: int,
    j: int,
    a: Seq<int>,
    b: Seq<int>,
)
    requires
        well_placed(headings, count),
        0 <= i < headings.len(),
        0 <= j < headings.len(),
        leads_to(headings, a, i),
        leads_to(headings, b, j),
    ensures
        match common(headings, Some(i), Some(j)) {
            Some(x) => a.contains(x) && b.contains(x) && forall|y: int|
                #[trigger] a.contains(y) && b.contains(y) ==> y <= x,
            None => forall|y: int| !(#[trigger] a.contains(y) && b.contains(y)),
        },
{
    lemma_only_chain(headings, count, i, a);
    lemma_only_chain(headings, count, j, b);
    common_ancestor_is_deepest(headings, Some(i), Some(j));
    match common(headings, Some(i), Some(j)) {
        Some(x) => {
            assert(above(headings, x, Some(i)) && above(headings, x, Some(j)));
            assert(a.contains(x) && b.contains(x));
            assert forall|y: int| #[trigger] a.contains(y) && b.contains(y) implies y <= x by {
                assert(above(headings, y, Some(i)) && above(headings, y, Some(j)));
                lemma_above_bound(headings, y, Some(x));
            }
        },
        None => {
            assert forall|y: int| !(#[trigger] a.contains(y) && b.contains(y)) by {
                if a.contains(y) && b.contains(y) {
                    assert(above(headings, y, Some(i)) && above(headings, y, Some(j)));
                }
            }
        },
    }
}

/// A chain holds the headings that are above its last one.
proof fn lemma_only_chain(headings: Seq<HeadingView>, count: nat, i: int, chain: Seq<int>)
    requires
        well_placed(headings, count),
        0 <= i < headings.len(),
        leads_to(headings, chain, i),
    ensures
        forall|x: int| above(headings, x, Some(i)) <==> #[trigger] chain.contains(x),
    decreases chain.len(),
{
    lemma_parent(headings, count, i);
    let rest = chain.drop_last();
    if rest.len() == 0 {
        assert(chain[0] == i);
        assert forall|x: int| above(headings, x, Some(i)) <==> #[trigger] chain.contains(x) by {
            assert(!above(headings, x, None));
        }
    } else {
        let p = rest.last();
        assert(headings[chain[chain.len() - 1]].parent == Some(chain[chain.len() - 2]));
        assert(headings[i].parent == Some(p));
        assert forall|a: int, b: int|
            0 <= a && b == a + 1 && b < rest.len() implies headings[#[trigger] rest[b]].parent
            == Some(#[trigger] rest[a]) by {
            assert(rest[b] == chain[b] && rest[a] == chain[a]);
        }
        assert forall|a: int| 0 <= a < rest.len() implies 0 <= #[trigger] rest[a]
            < headings.len() by {
            assert(rest[a] == chain[a]);
        }
        lemma_only_chain(headings, count, p, rest);
        assert forall|x: int| above(headings, x, Some(i)) <==> #[trigger] chain.contains(x) by {
            assert(above(headings, x, Some(i)) <==> i == x || above(headings, x, Some(p)));
            assert(above(headings, x, Some(p)) <==> rest.contains(x));
            if rest.contains(x) {
                let k = choose|k: int| 0 <= k < rest.len() && rest[k] == x;
                assert(chain[k] == x);
            }
            assert(chain[chain.len() - 1] == i);
            if chain.contains(x) && x != i {
                let k = choose|k: int| 0 <= k < chain.len() && chain[k] == x;
                assert(rest[k] == x);
            }
        }
    }
}

/// Where a heading stands in the hierarchy follows from the levels and lines
/// alone. It is nested under the last heading before it with a lower level. Its
/// section goes up to the line before the next heading, and its subtree up to the
/// line before the next heading that has its level or a lower one.
pub proof fn places_follow_from_levels(found: Seq<FoundView>, count: nat, i: int)
    requires
        0 <= i < found.len(),
        found[i].line <= count,
    ensures
        outline(found, count).len() == found.len(),
        ({
            let heading = outline(found, count)[i];
            &&& heading.level == found[i].level
            &&& heading.text == found[i].text
            &&& heading.line == found[i].line
            &&& match heading.parent {
                Some(p) => 0 <= p < i && found[p].level < found[i].level && forall|j: int|
                    p < j < i ==> (#[trigger] found[j]).level >= found[i].level,
                None => forall|j: int| 0 <= j < i ==> (#[trigger] found[j]).level >= found[i].level,
            }
            &&& heading.section_end == (if i + 1 < found.len() {
                found[i + 1].line - 1
            } else {
                count as int
            })
            &&& forall|next: int|
                i < next <= found.len() && (forall|j: int|
                    i < j < next ==> (#[trigger] found[j]).level > found[i].level) && (next
                    < found.len() ==> found[next].level <= found[i].level)
                    ==> heading.subtree_end == #[trigger] line_before(found, count, next)
        }),
        exists|next: int|
            i < next <= found.len() && (forall|j: int|
                i < j < next ==> (#[trigger] found[j]).level > found[i].level) && (next
                < found.len() ==> found[next].level <= found[i].level) && outline(
                found,
                count,
            )[i].subtree_end == #[trigger] line_before(found, count, next),
{
    lemma_enclosing(found, i - 1, found[i].level);
    lemma_closing(found, i + 1, found[i].level);
    let end = crate::heading::closing(found, i + 1, found[i].level);
    let heading = outline(found, count)[i];
    assert(heading.subtree_end == line_before(found, count, end));
    assert forall|next: int|
        i < next <= found.len() && (forall|j: int|
            i < j < next ==> (#[trigger] found[j]).level > found[i].level) && (next < found.len()
            ==> found[next].level <= found[i].level) implies heading.subtree_end
        == #[trigger] line_before(found, count, next) by {
        if next < end {
            assert(found[next].level > found[i].level);
        }
        if end < next {
            assert(found[end].level > found[i].level);
        }
    }
}

/// The line before heading `next`, or the last of `count` lines.
pub open spec fn line_before(found: Seq<FoundView>, count: nat, next: int) -> int {
    if next < found.len() {
        found[next].line - 1
    } else {
        count as int
    }
}

/// What a section is called and where it is: that of a heading has the heading's
/// path and level, and goes from its line to the end of its subtree. The preamble
/// ends before the first heading, and the whole body has all lines.
pub proof fn sections_speak_of_their_headings(
    headings: Seq<HeadingView>,
    count: nat,
    i: usize,
)
    requires
        i < headings.len(),
    ensures
        section_path(headings, SectionId::Heading(i)) == path_of(headings, Some(i as int)),
        section_level(headings, SectionId::Heading(i)) == headings[i as int].level,
        section_first(headings, SectionId::Heading(i)) == headings[i as int].line,
        section_last(headings, count, SectionId::Heading(i)) == headings[i as int].subtree_end,
        section_path(headings, SectionId::Preamble).len() == 0,
        section_level(headings, SectionId::Preamble) == 0,
        section_first(headings, SectionId::Preamble) == 1,
        section_last(headings, count, SectionId::Preamble) == headings[0].line - 1,
        section_path(headings, SectionId::Root).len() == 0,
        section_level(headings, SectionId::Root) == 0,
        section_first(headings, SectionId::Root) == 1,
        section_last(headings, count, SectionId::Root) == count,
        preamble_end(headings, count) == headings[0].line - 1,
        section_last(Seq::empty(), count, SectionId::Preamble) == count,
        preamble_end(Seq::empty(), count) == count,
{
}

/// Whether `event` starts or ends a container or a heading.
pub open spec fn structural(event: MarkupView) -> bool {
    match event {
        MarkupView::Words(_) => false,
        MarkupView::CodeSpan(_) => false,
        MarkupView::SoftLine => false,
        MarkupView::HardLine => false,
        MarkupView::Other => false,
        _ => true,
    }
}

/// What `events` show of the text of a heading: their words and code, and a space
/// for each line break.
pub open spec fn shown(events: Seq<(MarkupView, usize)>) -> Seq<char>
    decreases events.len(),
{
    if events.len() == 0 {
        seq![]
    } else {
        shown(events.drop_last()) + match events.last().0 {
            MarkupView::Words(text) => text,
            MarkupView::CodeSpan(text) => text,
            MarkupView::SoftLine => seq![' '],
            MarkupView::HardLine => seq![' '],
            _ => seq![],
        }
    }
}

proof fn lemma_inside(
    bytes: Seq<u8>,
    before: Seq<(MarkupView, usize)>,
    inside: Seq<(MarkupView, usize)>,
)
    requires
        forall|k: int| 0 <= k < inside.len() ==> !structural((#[trigger] inside[k]).0),
    ensures
        ({
            let a = scanned(bytes, before);
            let b = scanned(bytes, before + inside);
            &&& b.found == a.found
            &&& b.depth == a.depth
            &&& a.open is None ==> b.open is None
            &&& a.open matches Some(h) ==> b.open == Some(
                FoundView { level: h.level, line: h.line, text: h.text + shown(inside) },
            )
        }),
    decreases inside.len(),
{
    let a = scanned(bytes, before);
    if inside.len() == 0 {
        assert(before + inside =~= before);
        if let Some(h) = a.open {
            assert(h.text + shown(inside) =~= h.text);
        }
    } else {
        let fewer = inside.drop_last();
        assert forall|k: int| 0 <= k < fewer.len() implies !structural((#[trigger] fewer[k]).0) by {
            assert(inside[k] == fewer[k]);
        }
        lemma_inside(bytes, before, fewer);
        assert((before + inside).drop_last() =~= before + fewer);
        assert((before + inside).last() == inside[inside.len() - 1]);
        assert(!structural(inside[inside.len() - 1].0));
        if let Some(h) = a.open {
            let b = scanned(bytes, before + inside);
            assert(b.open->Some_0.text =~= h.text + shown(inside));
        }
    }
}

/// A heading outside of all containers is found, with the level and the line it
/// starts on, and with what its events show as text, cleaned; unless that leaves
/// nothing, or it does not start on a later line than the heading found before it.
pub proof fn a_heading_is_read_from_start_to_end(
    bytes: Seq<u8>,
    before: Seq<(MarkupView, usize)>,
    level: u8,
    at: usize,
    inside: Seq<(MarkupView, usize)>,
    end: usize,
)
    requires
        scanned(bytes, before).depth == 0,
        forall|k: int| 0 <= k < inside.len() ==> !structural((#[trigger] inside[k]).0),
    ensures
        ({
            let a = scanned(bytes, before);
            let b = scanned(
                bytes,
                (before.push((MarkupView::HeadingStart(level), at)) + inside).push(
                    (MarkupView::HeadingEnd, end),
                ),
            );
            let text = clean(shown(inside));
            let line = line_at(bytes, at as int);
            &&& b.depth == 0
            &&& b.open is None
            &&& b.found == (if text.len() > 0 && (a.found.len() == 0 || a.found.last().line
                < line) {
                a.found.push(FoundView { level, line, text })
            } else {
                a.found
            })
        }),
{
    let start = before.push((MarkupView::HeadingStart(level), at));
    assert(start.drop_last() =~= before);
    lemma_inside(bytes, start, inside);
    let all = (start + inside).push((MarkupView::HeadingEnd, end));
    assert(all.drop_last() =~= start + inside);
    assert(Seq::<char>::empty() + shown(inside) =~= shown(inside));
}

/// What each event does. Block quotes, lists and footnotes are containers: each one
/// that starts is one more to be inside of, each one that ends is one fewer. Outside
/// of all containers the start of a heading begins to read it, inside of one it does
/// nothing. Words, code and line breaks are read as long as a heading is. The end of
/// a heading adds it to those found, if anything is left of its text and it starts on
/// a later line than the one before it.
pub proof fn headings_in_containers_are_passed_over(
    bytes: Seq<u8>,
    before: Seq<(MarkupView, usize)>,
    event: (MarkupView, usize),
)
    ensures
        scanned(bytes, Seq::empty()).depth == 0,
        scanned(bytes, Seq::empty()).found.len() == 0,
        scanned(bytes, Seq::empty()).open is None,
        ({
            let a = scanned(bytes, before);
            let b = scanned(bytes, before.push(event));
            let line = line_at(bytes, event.1 as int);
            &&& event.0 is Quote || event.0 is ListStart || event.0 is Footnote ==> b.depth
                == a.depth + 1 && b.open == a.open
            &&& event.0 is QuoteEnd || event.0 is ListEnd || event.0 is FootnoteEnd ==> b.depth == (
            if a.depth > 0 {
                a.depth - 1
            } else {
                0
            }) && b.open == a.open
            &&& event.0 matches MarkupView::HeadingStart(level) ==> b.depth == a.depth && b.open
                == (if a.depth > 0 {
                a.open
            } else {
                Some(FoundView { level, line, text: seq![] })
            })
            &&& event.0 is HeadingEnd ==> b.depth == a.depth && b.open is None
            &&& !structural(event.0) ==> b.depth == a.depth && match a.open {
                Some(h) => b.open == Some(FoundView { text: h.text + shown(seq![event]), ..h }),
                None => b.open is None,
            }
            &&& !(event.0 is HeadingEnd) || a.open is None ==> b.found == a.found
            &&& event.0 is HeadingEnd ==> (a.open matches Some(h) ==> b.found == (if clean(
                h.text,
            ).len() > 0 && (a.found.len() == 0 || a.found.last().line < h.line) {
                a.found.push(FoundView { text: clean(h.text), ..h })
            } else {
                a.found
            }))
        }),
{
    assert(before.push(event).drop_last() =~= before);
    let one = seq![event];
    assert(one.drop_last() =~= seq![]);
    reveal_with_fuel(shown, 2);
    if !structural(event.0) {
        assert forall|k: int| 0 <= k < one.len() implies !structural((#[trigger] one[k]).0) by {}
        lemma_inside(bytes, before, one);
        assert(before + one =~= before.push(event));
    }
}

} // verus!
