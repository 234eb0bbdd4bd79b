//! The headings of a markdown body: where its sections are, what they are
//! called and how they are nested.
use vstd::prelude::*;
use vstd::string::*;
use vstd::utf8::*;

use crate::heading_text::{clean, clean_heading_text, clean_is_idempotent, clean_is_tidy, plain};
use crate::lines::{lemma_line_at, line_at, line_count, LineIndex};
use crate::markup::{
    event_views, markdown_events, parse_markdown, Markup, MarkupView, PARSER_OPTIONS,
};
use crate::text::{lemma_byte_len_bounds, trim, views};

verus! {

/// A heading as it stands in the body.
pub struct FoundView {
    /// Its level.
    pub level: u8,
    /// The line it starts on.
    pub line: nat,
    /// Its text.
    pub text: Seq<char>,
}

/// How far a scan of the events has come.
pub struct ScanView {
    /// The heading that is being read, with its raw text so far.
    pub open: Option<FoundView>,
    /// How many block quotes, lists and footnote definitions are open.
    pub depth: nat,
    /// The headings that were read.
    pub found: Seq<FoundView>,
}

/// `scan` with `text` added to the heading that is being read.
pub open spec fn scan_text(scan: ScanView, text: Seq<char>) -> ScanView {
    match scan.open {
        Some(heading) => ScanView {
            open: Some(FoundView { text: heading.text + text, ..heading }),
            ..scan
        },
        None => scan,
    }
}

/// What one event does to a scan of the body with the bytes `bytes`.
///
/// A heading is read only outside of all containers. When it ends, it counts if
/// its cleaned text is not empty, and if it is on a later line than the heading
/// before it.
pub open spec fn scan_step(bytes: Seq<u8>, scan: ScanView, event: (MarkupView, usize)) -> ScanView {
    match event.0 {
        MarkupView::Quote | MarkupView::ListStart | MarkupView::Footnote => ScanView {
            depth: scan.depth + 1,
            ..scan
        },
        MarkupView::QuoteEnd | MarkupView::ListEnd | MarkupView::FootnoteEnd => ScanView {
            depth: if scan.depth == 0 {
                0
            } else {
                (scan.depth - 1) as nat
            },
            ..scan
        },
        MarkupView::HeadingStart(level) => if scan.depth == 0 {
            let heading = FoundView { level, line: line_at(bytes, event.1 as int), text: seq![] };
            ScanView { open: Some(heading), ..scan }
        } else {
            scan
        },
        MarkupView::HeadingEnd => match scan.open {
            Some(heading) => {
                let text = clean(heading.text);
                if text.len() > 0 && (scan.found.len() == 0 || heading.line
                    > scan.found.last().line) {
                    ScanView {
                        open: None,
                        found: scan.found.push(FoundView { text, ..heading }),
                        ..scan
                    }
                } else {
                    ScanView { open: None, ..scan }
                }
            },
            None => scan,
        },
        MarkupView::Words(text) => scan_text(scan, text),
        MarkupView::CodeSpan(text) => scan_text(scan, text),
        MarkupView::SoftLine | MarkupView::HardLine => scan_text(scan, seq![' ']),
        MarkupView::Other => scan,
    }
}

/// The scan of all `events`.
pub open spec fn scanned(bytes: Seq<u8>, events: Seq<(MarkupView, usize)>) -> ScanView
    decreases events.len(),
{
    if events.len() == 0 {
        ScanView { open: None, depth: 0, found: seq![] }
    } else {
        scan_step(bytes, scanned(bytes, events.drop_last()), events.last())
    }
}

/// A heading with its place in the hierarchy.
pub struct HeadingView {
    /// Its level.
    pub level: u8,
    /// Its text.
    pub text: Seq<char>,
    /// The line it starts on.
    pub line: nat,
    /// The heading it is nested under.
    pub parent: Option<int>,
    /// The last line of its own section.
    pub section_end: int,
    /// The last line of its subtree.
    pub subtree_end: int,
}

/// The last heading up to number `i` with a level below `level`.
#[verifier::opaque]
pub open spec fn enclosing(found: Seq<FoundView>, i: int, level: u8) -> Option<int>
    decreases i + 1,
{
    if i < 0 {
        None
    } else if found[i].level < level {
        Some(i)
    } else {
        enclosing(found, i - 1, level)
    }
}

/// The first heading from number `i` on at `level` or above it in the
/// hierarchy, or their number if there is none.
#[verifier::opaque]
pub open spec fn closing(found: Seq<FoundView>, i: int, level: u8) -> int
    decreases found.len() - i,
{
    if i >= found.len() {
        found.len() as int
    } else if found[i].level <= level {
        i
    } else {
        closing(found, i + 1, level)
    }
}

/// The line before heading `next`, or, behind the last heading, the last of
/// `count` lines; at least `line`.
pub open spec fn end_before(found: Seq<FoundView>, count: nat, next: int, line: nat) -> int {
    if next < found.len() {
        found[next].line - 1
    } else if count > line {
        count as int
    } else {
        line as int
    }
}

/// Heading `i` with its place in the hierarchy:
///
/// - its parent is the nearest heading before it with a lower level,
/// - its section ends before the next heading,
/// - its subtree ends before the next heading at its level or a lower one.
pub open spec fn placed(found: Seq<FoundView>, count: nat, i: int) -> HeadingView {
    let heading = found[i];
    HeadingView {
        level: heading.level,
        text: heading.text,
        line: heading.line,
        parent: enclosing(found, i - 1, heading.level),
        section_end: end_before(found, count, i + 1, heading.line),
        subtree_end: end_before(found, count, closing(found, i + 1, heading.level), heading.line),
    }
}

/// All headings with their places in the hierarchy.
pub open spec fn outline(found: Seq<FoundView>, count: nat) -> Seq<HeadingView> {
    Seq::new(found.len(), |i: int| placed(found, count, i))
}

/// Each heading is on a later line than the one before it.
pub open spec fn ascending(found: Seq<FoundView>) -> bool {
    &&& forall|i: int| 0 <= i < found.len() ==> 1 <= (#[trigger] found[i]).line
    &&& forall|i: int, j: int|
        0 <= i < j < found.len() ==> (#[trigger] found[i]).line < (#[trigger] found[j]).line
}

pub proof fn lemma_enclosing(found: Seq<FoundView>, i: int, level: u8)
    requires
        i < found.len(),
    ensures
        match enclosing(found, i, level) {
            Some(p) => 0 <= p <= i && found[p].level < level && forall|j: int|
                p < j <= i ==> (#[trigger] found[j]).level >= level,
            None => forall|j: int| 0 <= j <= i ==> (#[trigger] found[j]).level >= level,
        },
    decreases i + 1,
{
    reveal_with_fuel(enclosing, 1);
    if i >= 0 && found[i].level >= level {
        lemma_enclosing(found, i - 1, level);
    }
}

proof fn lemma_enclosing_is(found: Seq<FoundView>, i: int, level: u8, p: int)
    requires
        -1 <= p <= i < found.len(),
        p >= 0 ==> found[p].level < level,
        forall|j: int| p < j <= i ==> (#[trigger] found[j]).level >= level,
    ensures
        enclosing(found, i, level) == (if p >= 0 {
            Some(p)
        } else {
            None
        }),
    decreases i + 1,
{
    reveal_with_fuel(enclosing, 1);
    if i > p {
        lemma_enclosing_is(found, i - 1, level, p);
    }
}

pub proof fn lemma_closing(found: Seq<FoundView>, i: int, level: u8)
    requires
        0 <= i <= found.len(),
    ensures
        i <= closing(found, i, level) <= found.len(),
        closing(found, i, level) < found.len() ==> found[closing(found, i, level)].level <= level,
        forall|j: int|
            i <= j < closing(found, i, level) ==> (#[trigger] found[j]).level > level,
    decreases found.len() - i,
{
    reveal_with_fuel(closing, 1);
    if i < found.len() && found[i].level > level {
        lemma_closing(found, i + 1, level);
    }
}

/// A heading that was found in the body.
struct Found {
    level: u8,
    line: usize,
    text: String,
}

impl View for Found {
    type V = FoundView;

    closed spec fn view(&self) -> FoundView {
        FoundView { level: self.level, line: self.line as nat, text: self.text@ }
    }
}

spec fn found_views(found: Seq<Found>) -> Seq<FoundView> {
    found.map_values(|f: Found| f@)
}

spec fn open_view(open: Option<Found>) -> Option<FoundView> {
    match open {
        Some(heading) => Some(heading@),
        None => None,
    }
}

/// One heading outside of all containers. A heading is known by its number in
/// document order, never by its text: two headings with the same text are
/// different headings.
#[derive(Debug, Clone, PartialEq, Eq)]
pub struct Heading {
    /// Its level, 1 to 6.
    pub level: u8,
    /// Its rendered plain text, as [`clean_heading_text`] leaves it; never empty.
    pub text: String,
    /// The line it starts on.
    pub line: usize,
    /// The nearest heading before it with a lower level: the one that it is
    /// nested under. `None` at the top of the hierarchy.
    pub parent: Option<usize>,
    /// The last line of its own section: the line before the next heading, or
    /// the last line of the body.
    pub section_end: usize,
    /// The last line of its subtree: the line before the next heading at its
    /// level or a lower one, or the last line of the body.
    pub subtree_end: usize,
}

/// `parent` as a mathematical integer.
pub open spec fn node(parent: Option<usize>) -> Option<int> {
    match parent {
        Some(i) => Some(i as int),
        None => None,
    }
}

impl View for Heading {
    type V = HeadingView;

    open spec fn view(&self) -> HeadingView {
        HeadingView {
            level: self.level,
            text: self.text@,
            line: self.line as nat,
            parent: node(self.parent),
            section_end: self.section_end as int,
            subtree_end: self.subtree_end as int,
        }
    }
}

/// The views of a list of headings.
pub open spec fn heading_views(headings: Seq<Heading>) -> Seq<HeadingView> {
    headings.map_values(|h: Heading| h@)
}

proof fn lemma_scanned_push(bytes: Seq<u8>, events: Seq<(Markup, usize)>, i: int)
    requires
        0 <= i < events.len(),
    ensures
        scanned(bytes, event_views(events).take(i + 1)) == scan_step(
            bytes,
            scanned(bytes, event_views(events).take(i)),
            (events[i].0@, events[i].1),
        ),
{
    let all = event_views(events);
    assert(all.take(i + 1).drop_last() =~= all.take(i));
    assert(all.take(i + 1).last() == (events[i].0@, events[i].1));
}

/// The headings that `events` report.
fn scan_events(lines: &LineIndex, events: &Vec<(Markup, usize)>) -> (r: Vec<Found>)
    requires
        lines.wf(),
    ensures
        found_views(r@) == scanned(lines@, event_views(events@)).found,
        ascending(found_views(r@)),
        lines@.len() > 0 ==> forall|i: int|
            0 <= i < r@.len() ==> (#[trigger] r@[i]).line <= line_count(lines@),
        forall|i: int| 0 <= i < r@.len() ==> (#[trigger] r@[i]).text@.len() > 0,
{
    let mut open: Option<Found> = None;
    let mut depth: usize = 0;
    let mut found: Vec<Found> = Vec::new();
    let mut i: usize = 0;
    proof {
        assert(event_views(events@).take(0) =~= seq![]);
    }
    while i < events.len()
        invariant
            i <= events@.len(),
            lines.wf(),
            scanned(lines@, event_views(events@).take(i as int)).open == open_view(open),
            scanned(lines@, event_views(events@).take(i as int)).depth == depth,
            scanned(lines@, event_views(events@).take(i as int)).found == found_views(found@),
            depth <= i,
            ascending(found_views(found@)),
            open matches Some(h) ==> 1 <= h.line,
            lines@.len() > 0 ==> forall|i: int|
                0 <= i < found@.len() ==> (#[trigger] found@[i]).line <= line_count(lines@),
            forall|i: int| 0 <= i < found@.len() ==> (#[trigger] found@[i]).text@.len() > 0,
            lines@.len() > 0 ==> (open matches Some(h) ==> h.line <= line_count(lines@)),
        decreases events@.len() - i,
    {
        let ghost before = scanned(lines@, event_views(events@).take(i as int));
        proof {
            lemma_scanned_push(lines@, events@, i as int);
        }
        let event = &events[i];
        match &event.0 {
            Markup::Quote | Markup::ListStart | Markup::Footnote => {
                depth = depth + 1;
            },
            Markup::QuoteEnd | Markup::ListEnd | Markup::FootnoteEnd => {
                if depth > 0 {
                    depth = depth - 1;
                }
            },
            Markup::HeadingStart(level) => {
                if depth == 0 {
                    let line: usize = lines.line_of(event.1);
                    proof {
                        lemma_line_at(lines@, event.1 as int);
                    }
                    open = Some(Found { level: *level, line, text: String::new() });
                    assert(open_view(open)->Some_0.text =~= seq![]);
                }
            },
            Markup::HeadingEnd => {
                if let Some(heading) = open {
                    let text = clean_heading_text(heading.text.as_str());
                    let fresh = found.len() == 0 || heading.line > found[found.len() - 1].line;
                    if !text.as_str().is_empty() && fresh {
                        let ghost old_found = found@;
                        found.push(Found { level: heading.level, line: heading.line, text });
                        proof {
                            let views = found_views(found@);
                            assert(views =~= found_views(old_found).push(views.last()));
                            assert forall|i: int, j: int| 0 <= i < j < views.len() implies (
                            #[trigger] views[i]).line < (#[trigger] views[j]).line by {
                                if j == views.len() - 1 && i < views.len() - 2 {
                                    assert(views[i].line < views[views.len() - 2].line) by {
                                        assert(found_views(old_found)[i].line < found_views(
                                            old_found,
                                        )[views.len() - 2].line);
                                    }
                                }
                            }
                        }
                    }
                }
                open = None;
            },
            Markup::Words(text) => {
                if let Some(mut heading) = open {
                    heading.text.append(text.as_str());
                    open = Some(heading);
                }
            },
            Markup::CodeSpan(text) => {
                if let Some(mut heading) = open {
                    heading.text.append(text.as_str());
                    open = Some(heading);
                }
            },
            Markup::SoftLine | Markup::HardLine => {
                if let Some(mut heading) = open {
                    heading.text.push(' ');
                    open = Some(heading);
                    assert(open_view(open)->Some_0.text =~= before.open->Some_0.text + seq![' ']);
                }
            },
            Markup::Other => {},
        }
        i = i + 1;
    }
    proof {
        assert(event_views(events@).take(events@.len() as int) =~= event_views(events@));
    }
    found
}

/// The larger one of two lines.
fn later(a: usize, b: usize) -> (r: usize)
    ensures
        r == (if a > b {
            a
        } else {
            b
        }),
{
    if a > b {
        a
    } else {
        b
    }
}

/// `stack` holds the headings among the first `n` that no later one of them
/// closes, each nested under the one before it.
spec fn open_headings(found: Seq<FoundView>, n: int, stack: Seq<usize>) -> bool {
    &&& forall|m: int| 0 <= m < stack.len() ==> (#[trigger] stack[m]) < n
    &&& stack.len() > 0 ==> nested_under(found, stack[0] as int, None)
    &&& forall|a: int, b: int|
        0 <= a && b == a + 1 && b < stack.len() ==> nested_under(
            found,
            #[trigger] stack[b] as int,
            Some(#[trigger] stack[a] as int),
        )
    &&& n > 0 ==> stack.len() > 0 && stack.last() == n - 1
    &&& forall|m: int|
        0 <= m < stack.len() ==> closing(
            found,
            (#[trigger] stack[m]) + 1,
            found[stack[m] as int].level,
        ) >= n
    &&& forall|i: int|
        0 <= i < n && closing(found, i + 1, (#[trigger] found[i]).level) >= n ==> stacked(stack, i)
}

spec fn nested_under(found: Seq<FoundView>, i: int, parent: Option<int>) -> bool {
    enclosing(found, i - 1, found[i].level) == parent
}

spec fn stacked(stack: Seq<usize>, i: int) -> bool {
    exists|m: int| 0 <= m < stack.len() && #[trigger] stack[m] == i
}

/// The last line of the subtree of heading `i`, as far as the first `n` headings
/// tell.
spec fn known_end(found: Seq<FoundView>, count: nat, n: int, i: int) -> int {
    let next = closing(found, i + 1, found[i].level);
    if next < n {
        found[next].line - 1
    } else if count > found[i].line {
        count as int
    } else {
        found[i].line as int
    }
}

/// Headings further down the stack have lower levels.
proof fn lemma_stack_levels(found: Seq<FoundView>, n: int, stack: Seq<usize>, a: int, b: int)
    requires
        n <= found.len(),
        open_headings(found, n, stack),
        0 <= a < b < stack.len(),
    ensures
        found[stack[a] as int].level < found[stack[b] as int].level,
        stack[a] < stack[b],
    decreases b - a,
{
    let below = b - 1;
    assert(nested_under(found, stack[b] as int, Some(stack[below] as int)));
    lemma_enclosing(found, stack[b] - 1, found[stack[b] as int].level);
    if a < b - 1 {
        lemma_stack_levels(found, n, stack, a, b - 1);
    }
}

/// Heading `i` leaves the first `n` open headings open and is open itself.
proof fn lemma_open_step(found: Seq<FoundView>, i: int, open: Seq<usize>, n: int)
    requires
        0 <= i < found.len(),
        i <= usize::MAX,
        open_headings(found, i, open),
        0 <= n <= open.len(),
        n > 0 ==> found[open[n - 1] as int].level < found[i].level,
        forall|m: int|
            n <= m < open.len() ==> found[(#[trigger] open[m]) as int].level >= found[i].level,
        nested_under(
            found,
            i,
            if n > 0 {
                Some(open[n - 1] as int)
            } else {
                None
            },
        ),
    ensures
        open_headings(found, i + 1, open.take(n).push(i as usize)),
{
    let stack = open.take(n).push(i as usize);
    lemma_closing(found, i + 1, found[i].level);
    assert forall|k: int|
        0 <= k < i + 1 && closing(found, k + 1, (#[trigger] found[k]).level) >= i
            + 1 implies stacked(stack, k) by {
        if k == i {
            assert(stack[n] == k);
        } else {
            lemma_closing(found, k + 1, found[k].level);
            assert(stacked(open, k));
            let m = choose|m: int| 0 <= m < open.len() && #[trigger] open[m] == k;
            assert(m < n);
            assert(stack[m] == k);
        }
    }
    assert forall|m: int| 0 <= m < stack.len() implies closing(
        found,
        (#[trigger] stack[m]) + 1,
        found[stack[m] as int].level,
    ) >= i + 1 by {
        if m < n {
            assert(stack[m] == open[m]);
            if m < n - 1 {
                lemma_stack_levels(found, i, open, m, n - 1);
            }
            lemma_closing(found, stack[m] + 1, found[stack[m] as int].level);
        }
    }
    assert forall|a: int, b: int| 0 <= a && b == a + 1 && b < stack.len() implies nested_under(
        found,
        #[trigger] stack[b] as int,
        Some(#[trigger] stack[a] as int),
    ) by {
        assert(stack[a] == open[a]);
        if b < n {
            assert(stack[b] == open[b]);
        }
    }
    if n > 0 {
        assert(stack[0] == open[0]);
    }
}

/// Heading `i` ends the subtrees of those open headings that it closes, and of
/// no others.
proof fn lemma_end_step(found: Seq<FoundView>, count: nat, i: int, open: Seq<usize>, n: int, k: int)
    requires
        0 <= k < i < found.len(),
        open_headings(found, i, open),
        0 <= n <= open.len(),
        n > 0 ==> found[open[n - 1] as int].level < found[i].level,
        forall|m: int|
            n <= m < open.len() ==> found[(#[trigger] open[m]) as int].level >= found[i].level,
    ensures
        known_end(found, count, i + 1, k) == (if exists|m: int|
            n <= m < open.len() && #[trigger] open[m] == k {
            found[i].line - 1
        } else {
            known_end(found, count, i, k)
        }),
{
    let c = closing(found, k + 1, found[k].level);
    lemma_closing(found, k + 1, found[k].level);
    if c >= i {
        assert(stacked(open, k));
        let m = choose|m: int| 0 <= m < open.len() && #[trigger] open[m] == k;
        if m < n {
            if m < n - 1 {
                lemma_stack_levels(found, i, open, m, n - 1);
            }
            assert(c != i);
            assert forall|q: int| n <= q < open.len() implies #[trigger] open[q] != k by {
                lemma_stack_levels(found, i, open, m, q);
            }
        } else {
            assert(c == i);
        }
    }
}

/// Gives the headings of a body with `count` lines their places in the
/// hierarchy.
fn place_headings(found: &Vec<Found>, count: usize) -> (r: Vec<Heading>)
    requires
        ascending(found_views(found@)),
    ensures
        heading_views(r@) == outline(found_views(found@), count as nat),
{
    let ghost all = found_views(found@);
    let mut parents: Vec<Option<usize>> = Vec::new();
    let mut ends: Vec<usize> = Vec::new();
    // The headings that are still open, the innermost one on top.
    let mut stack: Vec<usize> = Vec::new();
    let mut i: usize = 0;
    while i < found.len()
        invariant
            i <= found@.len(),
            all == found_views(found@),
            ascending(all),
            parents@.len() == i,
            ends@.len() == i,
            forall|k: int|
                0 <= k < i ==> node(#[trigger] parents@[k]) == enclosing(all, k - 1, all[k].level),
            forall|k: int|
                0 <= k < i ==> #[trigger] ends@[k] == known_end(all, count as nat, i as int, k),
            open_headings(all, i as int, stack@),
        decreases found@.len() - i,
    {
        let level: u8 = found[i].level;
        let line: usize = found[i].line;
        let ghost open = stack@;
        let ghost old_ends = ends@;
        assert(all[i as int].line == line && all[i as int].level == level);
        // The heading closes every open one at its level or deeper. That is where
        // their subtrees end, and it leaves its parent on top of the stack.
        while stack.len() > 0 && found[stack[stack.len() - 1]].level >= level
            invariant
                i < found@.len(),
                all == found_views(found@),
                ascending(all),
                level == all[i as int].level,
                line == all[i as int].line,
                open_headings(all, i as int, open),
                stack@.len() <= open.len(),
                stack@ == open.take(stack@.len() as int),
                ends@.len() == i,
                old_ends.len() == i,
                forall|k: int|
                    0 <= k < i && (forall|m: int|
                        stack@.len() <= m < open.len() ==> #[trigger] open[m] != k)
                        ==> #[trigger] ends@[k] == old_ends[k],
                forall|m: int|
                    stack@.len() <= m < open.len() ==> ends@[(#[trigger] open[m]) as int] == line
                        - 1 && all[open[m] as int].level >= level,
                forall|j: int|
                    (if stack@.len() > 0 {
                        stack@.last() as int
                    } else {
                        -1
                    }) < j < i ==> (#[trigger] all[j]).level >= level,
            decreases stack@.len(),
        {
            let ghost n = stack@.len() - 1;
            let top: usize = stack[stack.len() - 1];
            proof {
                assert(top == open[n]);
                assert(all[top as int].line < all[i as int].line);
                if n > 0 {
                    assert(nested_under(all, open[n] as int, Some(open[n - 1] as int)));
                }
                lemma_enclosing(all, top - 1, all[top as int].level);
                assert forall|m: int| n < m < open.len() implies #[trigger] open[m] != top by {
                    lemma_stack_levels(all, i as int, open, n, m);
                }
            }
            ends.set(top, line - 1);
            stack.pop();
            proof {
                assert(stack@ =~= open.take(n));
                assert forall|j: int|
                    (if stack@.len() > 0 {
                        stack@.last() as int
                    } else {
                        -1
                    }) < j < i implies (#[trigger] all[j]).level >= level by {}
            }
        }
        let parent: Option<usize> = if stack.len() > 0 {
            Some(stack[stack.len() - 1])
        } else {
            None
        };
        let ghost n = stack@.len() as int;
        proof {
            lemma_enclosing_is(
                all,
                i - 1,
                level,
                if n > 0 {
                    stack@.last() as int
                } else {
                    -1
                },
            );
            assert forall|k: int| 0 <= k < i implies #[trigger] ends@[k] == known_end(
                all,
                count as nat,
                i + 1,
                k,
            ) by {
                lemma_end_step(all, count as nat, i as int, open, n, k);
                assert(old_ends[k] == known_end(all, count as nat, i as int, k));
            }
            lemma_open_step(all, i as int, open, n);
        }
        parents.push(parent);
        ends.push(later(count, line));
        stack.push(i);
        proof {
            lemma_closing(all, i + 1, level);
            assert(stack@ =~= open.take(n).push(i));
        }
        i = i + 1;
    }
    let mut headings: Vec<Heading> = Vec::new();
    let mut i: usize = 0;
    while i < found.len()
        invariant
            i <= found@.len(),
            all == found_views(found@),
            ascending(all),
            parents@.len() == found@.len(),
            ends@.len() == found@.len(),
            forall|k: int|
                0 <= k < found@.len() ==> node(#[trigger] parents@[k]) == enclosing(
                    all,
                    k - 1,
                    all[k].level,
                ),
            forall|k: int|
                0 <= k < found@.len() ==> #[trigger] ends@[k] == known_end(
                    all,
                    count as nat,
                    found@.len() as int,
                    k,
                ),
            headings@.len() == i,
            forall|k: int|
                0 <= k < i ==> (#[trigger] headings@[k])@ == placed(all, count as nat, k),
        decreases found@.len() - i,
    {
        let heading = &found[i];
        assert(all[i as int] == heading@);
        let section_end: usize = if i + 1 < found.len() {
            assert(all[i as int].line < all[i + 1].line);
            found[i + 1].line - 1
        } else {
            later(count, heading.line)
        };
        proof {
            lemma_closing(all, i + 1, heading.level);
        }
        headings.push(
            Heading {
                level: heading.level,
                text: heading.text.clone(),
                line: heading.line,
                parent: parents[i],
                section_end,
                subtree_end: ends[i],
            },
        );
        i = i + 1;
    }
    assert(heading_views(headings@) =~= outline(all, count as nat));
    headings
}

/// What `headings` say without their places in the hierarchy.
pub open spec fn found_of(headings: Seq<HeadingView>) -> Seq<FoundView> {
    headings.map_values(|h: HeadingView| FoundView { level: h.level, line: h.line, text: h.text })
}

/// The places of `headings` in the hierarchy are those that follow from their
/// levels and lines, in a body of `count` lines.
#[verifier::opaque]
pub open spec fn well_placed(headings: Seq<HeadingView>, count: nat) -> bool {
    &&& ascending(found_of(headings))
    &&& headings == outline(found_of(headings), count)
    &&& forall|i: int| 0 <= i < headings.len() ==> (#[trigger] headings[i]).line <= count
    &&& forall|i: int| 0 <= i < headings.len() ==> (#[trigger] headings[i]).text.len() > 0
}

/// The number of headings up to `node`.
pub open spec fn rank(node: Option<int>) -> int {
    match node {
        Some(i) => i + 1,
        None => 0,
    }
}

/// The heading that `node` is nested under, if it is a heading before it.
pub open spec fn parent_of(headings: Seq<HeadingView>, i: int) -> Option<int> {
    match headings[i].parent {
        Some(p) => if 0 <= p < i {
            Some(p)
        } else {
            None
        },
        None => None,
    }
}

/// The texts of the headings from the top of the hierarchy down to `node`.
pub open spec fn path_of(headings: Seq<HeadingView>, node: Option<int>) -> Seq<Seq<char>>
    decreases rank(node),
{
    match node {
        Some(i) => if i >= 0 {
            path_of(headings, parent_of(headings, i)).push(headings[i].text)
        } else {
            seq![]
        },
        None => seq![],
    }
}

/// Whether heading `x` is `node` or one of its ancestors.
pub open spec fn above(headings: Seq<HeadingView>, x: int, node: Option<int>) -> bool
    decreases rank(node),
{
    match node {
        Some(i) => i >= 0 && (i == x || above(headings, x, parent_of(headings, i))),
        None => false,
    }
}

/// The first of `a` and its ancestors that is `b` or an ancestor of `b`.
pub open spec fn common(headings: Seq<HeadingView>, a: Option<int>, b: Option<int>) -> Option<int>
    decreases rank(a),
{
    match a {
        Some(i) => if i < 0 {
            None
        } else if above(headings, i, b) {
            Some(i)
        } else {
            common(headings, parent_of(headings, i), b)
        },
        None => None,
    }
}

/// Whether `node` is a heading among the first `n`, or none.
pub open spec fn in_tree(node: Option<int>, n: nat) -> bool {
    node matches Some(i) ==> 0 <= i < n
}

pub proof fn lemma_above_bound(headings: Seq<HeadingView>, x: int, node: Option<int>)
    requires
        above(headings, x, node),
    ensures
        node is Some,
        0 <= x <= node->Some_0,
    decreases rank(node),
{
    let i = node->Some_0;
    if i != x {
        lemma_above_bound(headings, x, parent_of(headings, i));
    }
}

pub proof fn lemma_above_transitive(headings: Seq<HeadingView>, x: int, y: int, node: Option<int>)
    requires
        above(headings, x, Some(y)),
        above(headings, y, node),
    ensures
        above(headings, x, node),
    decreases rank(node),
{
    let i = node->Some_0;
    if i != y {
        lemma_above_transitive(headings, x, y, parent_of(headings, i));
    }
}

/// Stepping up the one of two headings that comes later keeps what they have in
/// common.
proof fn lemma_common_step(headings: Seq<HeadingView>, a: int, b: int)
    requires
        0 <= a,
        0 <= b,
    ensures
        a > b ==> common(headings, Some(a), Some(b)) == common(
            headings,
            parent_of(headings, a),
            Some(b),
        ),
        a < b ==> common(headings, Some(a), Some(b)) == common(
            headings,
            Some(a),
            parent_of(headings, b),
        ),
{
    if a > b {
        if above(headings, a, Some(b)) {
            lemma_above_bound(headings, a, Some(b));
        }
    } else if a < b {
        lemma_common_below(headings, Some(a), b);
    }
}

proof fn lemma_common_below(headings: Seq<HeadingView>, a: Option<int>, b: int)
    requires
        rank(a) <= b,
        0 <= b,
    ensures
        common(headings, a, Some(b)) == common(headings, a, parent_of(headings, b)),
    decreases rank(a),
{
    if let Some(i) = a {
        if i >= 0 {
            lemma_common_below(headings, parent_of(headings, i), b);
        }
    }
}

/// What two headings have in common is above both, and it is the deepest such
/// heading: any other one is above it. The order of the two does not matter.
pub proof fn common_ancestor_is_deepest(headings: Seq<HeadingView>, a: Option<int>, b: Option<int>)
    ensures
        match common(headings, a, b) {
            Some(x) => above(headings, x, a) && above(headings, x, b) && forall|y: int|
                #[trigger] above(headings, y, a) && above(headings, y, b) ==> above(
                    headings,
                    y,
                    Some(x),
                ),
            None => forall|y: int|
                !(#[trigger] above(headings, y, a) && above(headings, y, b)),
        },
        common(headings, a, b) == common(headings, b, a),
{
    lemma_common_deepest(headings, a, b);
    lemma_common_deepest(headings, b, a);
    let x = common(headings, a, b);
    let y = common(headings, b, a);
    if x is Some && y is Some {
        assert(above(headings, x->Some_0, y));
        assert(above(headings, y->Some_0, x));
        lemma_above_bound(headings, x->Some_0, y);
        lemma_above_bound(headings, y->Some_0, x);
    } else if x is Some {
        assert(above(headings, x->Some_0, b));
    } else if y is Some {
        assert(above(headings, y->Some_0, a));
    }
}

proof fn lemma_common_deepest(headings: Seq<HeadingView>, a: Option<int>, b: Option<int>)
    ensures
        match common(headings, a, b) {
            Some(x) => above(headings, x, a) && above(headings, x, b) && forall|y: int|
                #[trigger] above(headings, y, a) && above(headings, y, b) ==> above(
                    headings,
                    y,
                    Some(x),
                ),
            None => forall|y: int|
                !(#[trigger] above(headings, y, a) && above(headings, y, b)),
        },
    decreases rank(a),
{
    if let Some(i) = a {
        if i >= 0 && !above(headings, i, b) {
            let p = parent_of(headings, i);
            lemma_common_deepest(headings, p, b);
            assert forall|y: int|
                #[trigger] above(headings, y, a) && above(headings, y, b) implies above(
                headings,
                y,
                p,
            ) by {}
        }
    }
}

/// Whether no text of `headings` has a control character in it, and cleaning them
/// again would change nothing.
pub open spec fn clean_texts(headings: Seq<HeadingView>) -> bool {
    forall|i: int|
        0 <= i < headings.len() ==> plain((#[trigger] headings[i]).text) && clean(headings[i].text)
            == headings[i].text
}

/// The headings of a body, in document order, with their hierarchy and the lines
/// of their sections.
///
/// What counts as a heading:
///
/// - A heading in a block quote, a list or a footnote definition is content of
///   that container.
/// - Both `#` headings and underlined ones count. The line of an underlined
///   heading is the first one of its text.
/// - A heading without text is content of the section it is in.
/// - A body line can hold several headings if they are separated by a lone
///   `'\r'`. Only the first of them counts.
pub struct HeadingTree {
    headings: Vec<Heading>,
    lines: LineIndex,
}

impl View for HeadingTree {
    type V = Seq<HeadingView>;

    closed spec fn view(&self) -> Seq<HeadingView> {
        heading_views(self.headings@)
    }
}

impl HeadingTree {
    /// The bytes of the body.
    pub closed spec fn bytes(&self) -> Seq<u8> {
        self.lines@
    }

    /// The headings have the places in the hierarchy that follow from their
    /// levels and lines.
    pub closed spec fn wf(&self) -> bool {
        &&& self.lines.wf()
        &&& well_placed(self@, line_count(self.bytes()))
    }

    /// What a well-formed tree is like.
    pub proof fn lemma_wf(&self)
        requires
            self.wf(),
        ensures
            well_placed(self@, line_count(self.bytes())),
            self@.len() <= usize::MAX,
    {
        assert(self.headings@.len() == self.headings.len());
    }

    /// The headings of `body`.
    pub fn parse(body: &str) -> (r: HeadingTree)
        ensures
            r.wf(),
            r.bytes() == encode_utf8(body@),
            r@ == outline(
                scanned(encode_utf8(body@), markdown_events(body@, PARSER_OPTIONS)).found,
                line_count(encode_utf8(body@)),
            ),
            forall|i: int| 0 <= i < r@.len() ==> 1 <= (#[trigger] r@[i]).level <= 6,
            clean_texts(r@),
            trim(body@).len() == 0 ==> r@.len() == 0,
    {
        let events = parse_markdown(body, PARSER_OPTIONS);
        let r = HeadingTree::from_events(body, &events);
        proof {
            let views = event_views(events@);
            assert forall|i: int| 0 <= i < views.len() implies (
            #[trigger] views[i].0 matches MarkupView::HeadingStart(level) ==> 1 <= level <= 6) by {
                assert(views[i].0 == events@[i].0@);
            }
            found_headings_are_clean(encode_utf8(body@), views);
            if trim(body@).len() == 0 {
                assert forall|i: int| 0 <= i < views.len() implies !(
                #[trigger] views[i].0 is HeadingStart) by {
                    assert(views[i].0 == events@[i].0@);
                }
                lemma_no_headings(encode_utf8(body@), views);
            }
            let found = scanned(encode_utf8(body@), views).found;
            assert forall|i: int| 0 <= i < r@.len() implies 1 <= (#[trigger] r@[i]).level <= 6 by {
                assert(r@[i].level == found[i].level);
            }
        }
        r
    }

    /// The headings of `body`, if its events are `events`.
    pub fn from_events(body: &str, events: &Vec<(Markup, usize)>) -> (r: HeadingTree)
        requires
            body@.len() == 0 ==> events@.len() == 0,
        ensures
            r.wf(),
            r.bytes() == encode_utf8(body@),
            r@ == outline(
                scanned(encode_utf8(body@), event_views(events@)).found,
                line_count(encode_utf8(body@)),
            ),
            clean_texts(r@),
    {
        let lines = LineIndex::new(body);
        let found = scan_events(&lines, events);
        let headings = place_headings(&found, lines.line_count());
        let r = HeadingTree { headings, lines };
        proof {
            reveal(well_placed);
            let views = found_views(found@);
            assert(found_of(r@) =~= views);
            if body@.len() == 0 {
                assert(event_views(events@) =~= seq![]);
                assert(views.len() == 0);
            } else {
                lemma_byte_len_bounds(body@);
            }
            assert forall|i: int| 0 <= i < r@.len() implies (#[trigger] r@[i]).line <= line_count(
                r.bytes(),
            ) && r@[i].text.len() > 0 by {
                assert(views[i] == found@[i]@);
            }
            found_headings_are_clean(encode_utf8(body@), event_views(events@));
            assert forall|i: int| 0 <= i < r@.len() implies plain((#[trigger] r@[i]).text) && clean(
                r@[i].text,
            ) == r@[i].text by {
                assert(r@[i].text == views[i].text);
            }
        }
        r
    }

    /// The headings, in document order.
    pub fn headings(&self) -> (r: &Vec<Heading>)
        ensures
            heading_views(r@) == self@,
    {
        &self.headings
    }

    /// The lines of the body.
    pub fn lines(&self) -> (r: &LineIndex)
        requires
            self.wf(),
        ensures
            r.wf(),
            r@ == self.bytes(),
    {
        &self.lines
    }

    /// The number of lines of the body.
    pub fn line_count(&self) -> (r: usize)
        requires
            self.wf(),
        ensures
            r == line_count(self.bytes()),
    {
        self.lines.line_count()
    }

    /// The last line before the first heading: 0 if the body opens with a
    /// heading, the last line if there are no headings.
    pub fn preamble_end(&self) -> (r: usize)
        requires
            self.wf(),
        ensures
            r == preamble_end(self@, line_count(self.bytes())),
    {
        if self.headings.len() == 0 {
            self.line_count()
        } else {
            proof {
                sections_tile(self@, line_count(self.bytes()));
                assert(self@[0] == self.headings@[0]@);
            }
            self.headings[0].line - 1
        }
    }

    /// The texts of the headings from the top of the hierarchy down to `node`
    /// with it. Empty for `None`.
    pub fn path(&self, node: Option<usize>) -> (r: Vec<String>)
        requires
            self.wf(),
            in_tree(crate::heading::node(node), self@.len()),
        ensures
            views(r@) == path_of(self@, crate::heading::node(node)),
    {
        // From `node` up, then the other way round.
        let mut up: Vec<String> = Vec::new();
        let mut cur = node;
        while cur.is_some()
            invariant
                self.wf(),
                in_tree(crate::heading::node(cur), self@.len()),
                path_of(self@, crate::heading::node(node)) == path_of(
                    self@,
                    crate::heading::node(cur),
                ) + views(up@).reverse(),
            decreases rank(crate::heading::node(cur)),
        {
            let i: usize = cur.unwrap();
            let ghost old_up = views(up@);
            proof {
                lemma_placed(self@, line_count(self.bytes()), i as int);
                assert(self@[i as int] == self.headings@[i as int]@);
            }
            up.push(self.headings[i].text.clone());
            cur = self.headings[i].parent;
            proof {
                assert(views(up@) =~= old_up.push(self@[i as int].text));
                assert(views(up@).reverse() =~= seq![self@[i as int].text] + old_up.reverse());
                let rest = path_of(self@, crate::heading::node(cur));
                assert(rest.push(self@[i as int].text) + old_up.reverse() =~= rest + views(
                    up@,
                ).reverse());
            }
        }
        let mut path: Vec<String> = Vec::new();
        let mut k: usize = up.len();
        while k > 0
            invariant
                k <= up@.len(),
                path@.len() == up@.len() - k,
                forall|m: int|
                    0 <= m < path@.len() ==> (#[trigger] path@[m])@ == up@[up@.len() - 1 - m]@,
            decreases k,
        {
            k = k - 1;
            path.push(up[k].clone());
        }
        proof {
            assert(views(path@) =~= views(up@).reverse());
            assert(Seq::<Seq<char>>::empty() + views(path@) =~= views(path@));
        }
        path
    }

    /// The deepest heading that is `a` or one of its ancestors, and `b` or one of
    /// its ancestors. `None` if they share nothing.
    pub fn common_ancestor(&self, a: Option<usize>, b: Option<usize>) -> (r: Option<usize>)
        requires
            self.wf(),
            in_tree(node(a), self@.len()),
            in_tree(node(b), self@.len()),
        ensures
            node(r) == common(self@, node(a), node(b)),
            in_tree(node(r), self@.len()),
    {
        let mut x = a;
        let mut y = b;
        // A parent comes before its children, so the later one of the two goes up.
        while x.is_some() && y.is_some() && x.unwrap() != y.unwrap()
            invariant
                self.wf(),
                in_tree(node(x), self@.len()),
                in_tree(node(y), self@.len()),
                common(self@, node(x), node(y)) == common(self@, node(a), node(b)),
            decreases rank(node(x)) + rank(node(y)),
        {
            let i: usize = x.unwrap();
            let j: usize = y.unwrap();
            proof {
                lemma_placed(self@, line_count(self.bytes()), i as int);
                lemma_placed(self@, line_count(self.bytes()), j as int);
                assert(self@[i as int] == self.headings@[i as int]@);
                assert(self@[j as int] == self.headings@[j as int]@);
                lemma_common_step(self@, i as int, j as int);
            }
            if i > j {
                x = self.headings[i].parent;
            } else {
                y = self.headings[j].parent;
            }
        }
        proof {
            lemma_common_none(self@, node(x));
        }
        if y.is_some() {
            x
        } else {
            None
        }
    }
}

proof fn lemma_common_none(headings: Seq<HeadingView>, a: Option<int>)
    ensures
        common(headings, a, None) == None::<int>,
    decreases rank(a),
{
    if let Some(i) = a {
        if i >= 0 {
            lemma_common_none(headings, parent_of(headings, i));
        }
    }
}

/// The last line before the first of `headings`, in a body of `count` lines.
pub open spec fn preamble_end(headings: Seq<HeadingView>, count: nat) -> int {
    if headings.len() == 0 {
        count as int
    } else {
        headings[0].line - 1
    }
}

/// Where the heading that `i` is nested under is.
proof fn lemma_placed(headings: Seq<HeadingView>, count: nat, i: int)
    requires
        well_placed(headings, count),
        0 <= i < headings.len(),
    ensures
        headings[i] == placed(found_of(headings), count, i),
        parent_of(headings, i) == headings[i].parent,
        match headings[i].parent {
            Some(p) => 0 <= p < i && headings[p].level < headings[i].level && forall|j: int|
                p < j < i ==> (#[trigger] headings[j]).level >= headings[i].level,
            None => forall|j: int|
                0 <= j < i ==> (#[trigger] headings[j]).level >= headings[i].level,
        },
{
    reveal(well_placed);
    let found = found_of(headings);
    assert(headings[i] == outline(found, count)[i]);
    lemma_enclosing(found, i - 1, headings[i].level);
    assert forall|j: int| 0 <= j < headings.len() implies (#[trigger] headings[j]).level
        == found[j].level by {}
}

/// A heading's parent is a heading before it.
pub proof fn lemma_parent(headings: Seq<HeadingView>, count: nat, i: int)
    requires
        well_placed(headings, count),
        0 <= i < headings.len(),
    ensures
        parent_of(headings, i) == headings[i].parent,
        headings[i].parent matches Some(p) ==> 0 <= p < i,
{
    lemma_placed(headings, count, i);
}

/// The sections follow each other without a gap: the preamble ends before the
/// first heading, each section ends before the next heading, and the last one
/// ends with the body. A heading's section is part of its subtree.
pub proof fn sections_tile(headings: Seq<HeadingView>, count: nat)
    requires
        well_placed(headings, count),
    ensures
        0 <= preamble_end(headings, count) <= count,
        headings.len() > 0 ==> preamble_end(headings, count) + 1 == headings[0].line,
        forall|i: int, j: int|
            0 <= i < headings.len() - 1 && j == i + 1 ==> (#[trigger] headings[i]).section_end + 1
                == (#[trigger] headings[j]).line,
        headings.len() > 0 ==> headings.last().section_end == count,
        forall|i: int|
            0 <= i < headings.len() ==> 1 <= (#[trigger] headings[i]).line
                <= headings[i].section_end <= headings[i].subtree_end <= count,
{
    reveal(well_placed);
    let found = found_of(headings);
    assert forall|i: int| 0 <= i < headings.len() implies 1 <= (#[trigger] headings[i]).line
        <= headings[i].section_end <= headings[i].subtree_end <= count && headings[i].section_end
        == (if i + 1 < headings.len() {
        headings[i + 1].line - 1
    } else {
        count as int
    }) by {
        lemma_placed(headings, count, i);
        lemma_closing(found, i + 1, headings[i].level);
        assert(found[i].line == headings[i].line);
        let next = closing(found, i + 1, headings[i].level);
        if i + 1 < headings.len() {
            assert(found[i].line < found[i + 1].line);
            assert(found[i + 1].line == headings[i + 1].line);
            if next < headings.len() {
                assert(found[next].line == headings[next].line);
                if next > i + 1 {
                    assert(found[i + 1].line < found[next].line);
                }
            }
        }
    }
    assert forall|i: int, j: int| 0 <= i < headings.len() - 1 && j == i + 1 implies (
    #[trigger] headings[i]).section_end + 1 == (#[trigger] headings[j]).line by {}
    if headings.len() > 0 {
        assert(headings[0].line >= 1);
        assert(headings[headings.len() - 1].section_end == count);
    }
}

/// A later heading is on a later line.
pub proof fn lemma_lines_ascend(headings: Seq<HeadingView>, count: nat, i: int, j: int)
    requires
        well_placed(headings, count),
        0 <= i < j < headings.len(),
    ensures
        headings[i].line < headings[j].line,
{
    reveal(well_placed);
    let found = found_of(headings);
    assert(found[i].line < found[j].line);
}

/// The heading that ends the subtree of heading `i`, or the number of headings.
spec fn next_outside(headings: Seq<HeadingView>, i: int) -> int {
    closing(found_of(headings), i + 1, headings[i].level)
}

/// Where the subtree of heading `i` ends.
proof fn lemma_subtree(headings: Seq<HeadingView>, count: nat, i: int)
    requires
        well_placed(headings, count),
        0 <= i < headings.len(),
    ensures
        i < next_outside(headings, i) <= headings.len(),
        forall|k: int|
            i < k < next_outside(headings, i) ==> (#[trigger] headings[k]).level
                > headings[i].level,
        headings[i].subtree_end == (if next_outside(headings, i) < headings.len() {
            headings[next_outside(headings, i)].line - 1
        } else {
            count as int
        }),
        next_outside(headings, i) < headings.len() ==> headings[next_outside(headings, i)].level
            <= headings[i].level,
{
    let found = found_of(headings);
    lemma_placed(headings, count, i);
    lemma_closing(found, i + 1, headings[i].level);
    assert(headings[i].line <= count) by {
        reveal(well_placed);
    }
    assert forall|k: int| i < k < next_outside(headings, i) implies (#[trigger] headings[k]).level
        > headings[i].level by {
        assert(found[k].level == headings[k].level);
    }
}

/// Being nested is being inside: heading `i` is heading `j` or one of its
/// ancestors exactly if `j` starts in the subtree of `i`.
pub proof fn nested_is_inside(headings: Seq<HeadingView>, count: nat, i: int, j: int)
    requires
        well_placed(headings, count),
        0 <= i < headings.len(),
        0 <= j < headings.len(),
    ensures
        above(headings, i, Some(j)) <==> headings[i].line <= headings[j].line
            <= headings[i].subtree_end,
{
    let next = next_outside(headings, i);
    lemma_subtree(headings, count, i);
    if j < i {
        lemma_lines_ascend(headings, count, j, i);
        if above(headings, i, Some(j)) {
            lemma_above_bound(headings, i, Some(j));
        }
    } else if j == i {
        sections_tile(headings, count);
    } else {
        lemma_lines_ascend(headings, count, i, j);
        lemma_nested(headings, count, i, j);
        if next <= j {
            if next < j {
                lemma_lines_ascend(headings, count, next, j);
            }
            assert(!(headings[next].level > headings[i].level));
        } else {
            sections_tile(headings, count);
            if next < headings.len() {
                lemma_lines_ascend(headings, count, j, next);
            }
        }
    }
}

proof fn lemma_nested(headings: Seq<HeadingView>, count: nat, i: int, j: int)
    requires
        well_placed(headings, count),
        0 <= i < j < headings.len(),
    ensures
        above(headings, i, Some(j)) <==> forall|k: int|
            i < k <= j ==> (#[trigger] headings[k]).level > headings[i].level,
    decreases j,
{
    lemma_placed(headings, count, j);
    assert(above(headings, i, Some(j)) == above(headings, i, headings[j].parent));
    match headings[j].parent {
        Some(p) => {
            if p == i {
                assert(above(headings, i, Some(p)));
            } else if p > i {
                lemma_nested(headings, count, i, p);
                if above(headings, i, Some(p)) {
                    assert(headings[p].level > headings[i].level);
                } else {
                    let k = choose|k: int|
                        i < k <= p && !((#[trigger] headings[k]).level > headings[i].level);
                    assert(i < k <= j);
                }
            } else {
                if above(headings, i, Some(p)) {
                    lemma_above_bound(headings, i, Some(p));
                }
                assert(headings[i].level >= headings[j].level);
                assert(!(headings[j].level > headings[i].level));
            }
        },
        None => {
            assert(headings[i].level >= headings[j].level);
            assert(!(headings[j].level > headings[i].level));
        },
    }
}

/// The subtree of a heading lies in those of its ancestors.
pub proof fn subtrees_are_nested(headings: Seq<HeadingView>, count: nat, x: int, i: int)
    requires
        well_placed(headings, count),
        0 <= i < headings.len(),
        above(headings, x, Some(i)),
    ensures
        0 <= x <= i,
        headings[x].line <= headings[i].line,
        headings[i].subtree_end <= headings[x].subtree_end,
{
    lemma_above_bound(headings, x, Some(i));
    if x < i {
        lemma_lines_ascend(headings, count, x, i);
        lemma_subtree(headings, count, x);
        lemma_subtree(headings, count, i);
        lemma_nested(headings, count, x, i);
        sections_tile(headings, count);
        let a = next_outside(headings, x);
        let b = next_outside(headings, i);
        assert(headings[i].level > headings[x].level);
        if a < headings.len() {
            if a <= i {
                assert(headings[a].level > headings[x].level);
            }
            if b > a {
                assert(headings[a].level > headings[i].level);
            }
            if b < a {
                lemma_lines_ascend(headings, count, b, a);
            }
        }
    }
}

/// The levels that `events` give to headings.
pub open spec fn levels_in_range(events: Seq<(MarkupView, usize)>) -> bool {
    forall|i: int|
        0 <= i < events.len() ==> (#[trigger] events[i].0 matches MarkupView::HeadingStart(level)
            ==> 1 <= level <= 6)
}

/// What every heading that a scan finds is like: its text is not empty, has no
/// control character in it and is what cleaning it again would give; its level
/// is one of 1 to 6 if the events keep to that.
pub proof fn found_headings_are_clean(bytes: Seq<u8>, events: Seq<(MarkupView, usize)>)
    ensures
        forall|i: int|
            0 <= i < scanned(bytes, events).found.len() ==> {
                let text = (#[trigger] scanned(bytes, events).found[i]).text;
                text.len() > 0 && plain(text) && clean(text) == text
            },
        levels_in_range(events) ==> forall|i: int|
            0 <= i < scanned(bytes, events).found.len() ==> 1 <= (#[trigger] scanned(
                bytes,
                events,
            ).found[i]).level <= 6,
        levels_in_range(events) ==> (scanned(bytes, events).open matches Some(h) ==> 1 <= h.level
            <= 6),
    decreases events.len(),
{
    if events.len() > 0 {
        let before = scanned(bytes, events.drop_last());
        let after = scanned(bytes, events);
        found_headings_are_clean(bytes, events.drop_last());
        assert(levels_in_range(events) ==> levels_in_range(events.drop_last())) by {
            assert forall|i: int| 0 <= i < events.len() - 1 implies #[trigger] events.drop_last()[i]
                == events[i] by {}
        }
        if let MarkupView::HeadingStart(level) = events.last().0 {
            assert(events[events.len() - 1].0 == events.last().0);
        }
        if events.last().0 is HeadingEnd {
            if let Some(heading) = before.open {
                clean_is_tidy(heading.text);
                clean_is_idempotent(heading.text);
            }
        }
        assert forall|i: int| 0 <= i < before.found.len() implies #[trigger] after.found[i]
            == before.found[i] by {}
    }
}

/// A heading is found only where one starts.
proof fn lemma_no_headings(bytes: Seq<u8>, events: Seq<(MarkupView, usize)>)
    requires
        forall|i: int| 0 <= i < events.len() ==> !(#[trigger] events[i].0 is HeadingStart),
    ensures
        scanned(bytes, events).found.len() == 0,
        scanned(bytes, events).open is None,
    decreases events.len(),
{
    if events.len() > 0 {
        let fewer = events.drop_last();
        assert forall|i: int| 0 <= i < fewer.len() implies !(
        #[trigger] fewer[i].0 is HeadingStart) by {
            assert(events[i] == fewer[i]);
        }
        lemma_no_headings(bytes, fewer);
        assert(!(events[events.len() - 1].0 is HeadingStart));
    }
}

} // verus!
