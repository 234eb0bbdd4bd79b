//! The section that a piece of a document is attributed to.
use vstd::prelude::*;

use crate::heading::{
    above, common, common_ancestor_is_deepest, lemma_above_bound, lemma_above_transitive, path_of,
    preamble_end, sections_tile, subtrees_are_nested, well_placed, HeadingTree, HeadingView,
};
use crate::lines::line_count;
use crate::text::views;

verus! {

/// A section of a document.
#[derive(Debug, Clone, Copy, PartialEq, Eq, Structural)]
pub enum SectionId {
    /// The whole body: where pieces belong that have no heading in common, such
    /// as the preamble and a section, or the sections of two top-level headings.
    Root,
    /// What stands before the first heading; the whole body if there is none.
    Preamble,
    /// The subtree of a heading.
    Heading(usize),
}

/// Whether `id` is a section of a document with `n` headings.
pub open spec fn section_in(id: SectionId, n: nat) -> bool {
    id matches SectionId::Heading(i) ==> i < n
}

/// The narrowest section that holds both `a` and `b`.
pub open spec fn merged(headings: Seq<HeadingView>, a: SectionId, b: SectionId) -> SectionId {
    if a == b {
        a
    } else {
        match (a, b) {
            (SectionId::Heading(i), SectionId::Heading(j)) => match common(
                headings,
                Some(i as int),
                Some(j as int),
            ) {
                Some(x) => SectionId::Heading(x as usize),
                None => SectionId::Root,
            },
            _ => SectionId::Root,
        }
    }
}

/// The heading texts from the top of the hierarchy down to section `id`.
pub open spec fn section_path(headings: Seq<HeadingView>, id: SectionId) -> Seq<Seq<char>> {
    match id {
        SectionId::Heading(i) => path_of(headings, Some(i as int)),
        _ => seq![],
    }
}

/// The level of the heading of section `id`, 0 without one.
pub open spec fn section_level(headings: Seq<HeadingView>, id: SectionId) -> u8 {
    match id {
        SectionId::Heading(i) => headings[i as int].level,
        _ => 0,
    }
}

/// The first line of section `id`.
pub open spec fn section_first(headings: Seq<HeadingView>, id: SectionId) -> int {
    match id {
        SectionId::Heading(i) => headings[i as int].line as int,
        _ => 1,
    }
}

/// The last line of section `id`, in a body of `count` lines.
pub open spec fn section_last(headings: Seq<HeadingView>, count: nat, id: SectionId) -> int {
    match id {
        SectionId::Heading(i) => headings[i as int].subtree_end,
        SectionId::Preamble => preamble_end(headings, count),
        SectionId::Root => count as int,
    }
}

impl SectionId {
    /// The narrowest section that holds both `self` and `other`.
    pub fn merge(self, other: SectionId, tree: &HeadingTree) -> (r: SectionId)
        requires
            tree.wf(),
            section_in(self, tree@.len()),
            section_in(other, tree@.len()),
        ensures
            r == merged(tree@, self, other),
            section_in(r, tree@.len()),
    {
        if self == other {
            return self;
        }
        match (self, other) {
            (SectionId::Heading(i), SectionId::Heading(j)) => {
                match tree.common_ancestor(Some(i), Some(j)) {
                    Some(x) => SectionId::Heading(x),
                    None => SectionId::Root,
                }
            },
            _ => SectionId::Root,
        }
    }

    /// The heading texts from the top of the hierarchy down to the section. Empty
    /// for the preamble and the whole body.
    pub fn path(self, tree: &HeadingTree) -> (r: Vec<String>)
        requires
            tree.wf(),
            section_in(self, tree@.len()),
        ensures
            views(r@) == section_path(tree@, self),
    {
        match self {
            SectionId::Heading(i) => tree.path(Some(i)),
            _ => {
                let r: Vec<String> = Vec::new();
                assert(views(r@) =~= seq![]);
                r
            },
        }
    }

    /// The level of the section's heading, 0 without one.
    pub fn level(self, tree: &HeadingTree) -> (r: u8)
        requires
            section_in(self, tree@.len()),
        ensures
            r == section_level(tree@, self),
    {
        match self {
            SectionId::Heading(i) => {
                let headings = tree.headings();
                assert(tree@[i as int] == headings@[i as int]@);
                headings[i].level
            },
            _ => 0,
        }
    }

    /// The first and the last line of the section.
    pub fn line_range(self, tree: &HeadingTree) -> (r: (usize, usize))
        requires
            tree.wf(),
            section_in(self, tree@.len()),
        ensures
            r.0 == section_first(tree@, self),
            r.1 == section_last(tree@, line_count(tree.bytes()), self),
    {
        match self {
            SectionId::Heading(i) => {
                let headings = tree.headings();
                assert(tree@[i as int] == headings@[i as int]@);
                (headings[i].line, headings[i].subtree_end)
            },
            SectionId::Preamble => (1, tree.preamble_end()),
            SectionId::Root => (1, tree.line_count()),
        }
    }
}

/// What two sections are merged to covers both of them.
pub proof fn merged_section_covers(
    headings: Seq<HeadingView>,
    count: nat,
    a: SectionId,
    b: SectionId,
)
    requires
        well_placed(headings, count),
        headings.len() <= usize::MAX,
        section_in(a, headings.len()),
        section_in(b, headings.len()),
    ensures
        section_in(merged(headings, a, b), headings.len()),
        section_first(headings, merged(headings, a, b)) <= section_first(headings, a),
        section_first(headings, merged(headings, a, b)) <= section_first(headings, b),
        section_last(headings, count, a) <= section_last(headings, count, merged(headings, a, b)),
        section_last(headings, count, b) <= section_last(headings, count, merged(headings, a, b)),
{
    sections_tile(headings, count);
    if a != b {
        match (a, b) {
            (SectionId::Heading(i), SectionId::Heading(j)) => {
                common_ancestor_is_deepest(headings, Some(i as int), Some(j as int));
                if let Some(x) = common(headings, Some(i as int), Some(j as int)) {
                    subtrees_are_nested(headings, count, x, i as int);
                    subtrees_are_nested(headings, count, x, j as int);
                }
            },
            _ => {},
        }
    }
}

/// Nothing narrower would do: a heading with both `a` and `b` in its subtree has
/// what they are merged to in its subtree. Which of the two comes first does not
/// matter.
pub proof fn merged_section_is_narrowest(
    headings: Seq<HeadingView>,
    count: nat,
    i: usize,
    j: usize,
    x: int,
)
    requires
        well_placed(headings, count),
        headings.len() <= usize::MAX,
        i < headings.len(),
        j < headings.len(),
        above(headings, x, Some(i as int)),
        above(headings, x, Some(j as int)),
    ensures
        merged(headings, SectionId::Heading(i), SectionId::Heading(j)) matches SectionId::Heading(m)
            && above(headings, x, Some(m as int)),
        merged(headings, SectionId::Heading(i), SectionId::Heading(j)) == merged(
            headings,
            SectionId::Heading(j),
            SectionId::Heading(i),
        ),
{
    common_ancestor_is_deepest(headings, Some(i as int), Some(j as int));
    let c = common(headings, Some(i as int), Some(j as int));
    if i != j {
        subtrees_are_nested(headings, count, c->Some_0, i as int);
    }
}

/// Whether `id` is the section of heading `x`, or lies in its subtree.
pub open spec fn lies_under(headings: Seq<HeadingView>, x: int, id: SectionId) -> bool {
    id matches SectionId::Heading(i) && above(headings, x, Some(i as int))
}

/// What two sections are merged to lies under exactly the headings that both lie
/// under. It is the preamble exactly if both are.
pub proof fn merged_lies_where_both_lie(headings: Seq<HeadingView>, a: SectionId, b: SectionId)
    ensures
        forall|x: int| #[trigger]
            lies_under(headings, x, merged(headings, a, b)) <==> lies_under(headings, x, a)
                && lies_under(headings, x, b),
        merged(headings, a, b) is Preamble <==> a is Preamble && b is Preamble,
{
    if a != b && a is Heading && b is Heading {
        let i = a->Heading_0 as int;
        let j = b->Heading_0 as int;
        common_ancestor_is_deepest(headings, Some(i), Some(j));
        if let Some(m) = common(headings, Some(i), Some(j)) {
            lemma_above_bound(headings, m, Some(i));
            assert(merged(headings, a, b) == SectionId::Heading(m as usize));
            assert forall|x: int| #[trigger] lies_under(headings, x, merged(headings, a, b))
                implies lies_under(headings, x, a) && lies_under(headings, x, b) by {
                lemma_above_transitive(headings, x, m, Some(i));
                lemma_above_transitive(headings, x, m, Some(j));
            }
        }
        assert forall|x: int|
            lies_under(headings, x, a) && lies_under(headings, x, b) implies #[trigger] lies_under(
            headings,
            x,
            merged(headings, a, b),
        ) by {
            assert(above(headings, x, Some(i)));
        }
    }
}

/// Two sections that lie under the same headings are the same.
proof fn lemma_same_section(headings: Seq<HeadingView>, a: SectionId, b: SectionId)
    requires
        forall|x: int| #[trigger] lies_under(headings, x, a) <==> lies_under(headings, x, b),
        a is Preamble <==> b is Preamble,
    ensures
        a == b,
{
    if let SectionId::Heading(i) = a {
        assert(lies_under(headings, i as int, a));
        assert(lies_under(headings, i as int, b));
        lemma_above_bound(headings, i as int, Some(b->Heading_0 as int));
    }
    if let SectionId::Heading(j) = b {
        assert(lies_under(headings, j as int, b));
        assert(lies_under(headings, j as int, a));
        lemma_above_bound(headings, j as int, Some(a->Heading_0 as int));
    }
}

/// What several sections are merged to depends neither on how they are grouped
/// nor on their order.
pub proof fn merging_ignores_grouping_and_order(
    headings: Seq<HeadingView>,
    a: SectionId,
    b: SectionId,
    c: SectionId,
)
    ensures
        merged(headings, merged(headings, a, b), c) == merged(headings, a, merged(headings, b, c)),
        merged(headings, a, b) == merged(headings, b, a),
{
    let ab = merged(headings, a, b);
    let bc = merged(headings, b, c);
    merged_lies_where_both_lie(headings, a, b);
    merged_lies_where_both_lie(headings, b, a);
    merged_lies_where_both_lie(headings, b, c);
    merged_lies_where_both_lie(headings, ab, c);
    merged_lies_where_both_lie(headings, a, bc);
    assert forall|x: int| #[trigger] lies_under(headings, x, merged(headings, ab, c))
        <==> lies_under(headings, x, merged(headings, a, bc)) by {
        assert(lies_under(headings, x, ab) <==> lies_under(headings, x, a) && lies_under(
            headings,
            x,
            b,
        ));
        assert(lies_under(headings, x, bc) <==> lies_under(headings, x, b) && lies_under(
            headings,
            x,
            c,
        ));
    }
    lemma_same_section(headings, merged(headings, ab, c), merged(headings, a, bc));
    assert forall|x: int| #[trigger] lies_under(headings, x, ab) <==> lies_under(
        headings,
        x,
        merged(headings, b, a),
    ) by {}
    lemma_same_section(headings, ab, merged(headings, b, a));
}

} // verus!
