//! The marks that a pre-order walk over the block tree leaves: the stream of
//! events, with each slice of the input given by the place of its bytes.
use crate::tree::Node;
use crate::types::block::{Block, BlockKind};
use crate::types::event::EventView;
use crate::types::tag::TagView;
use vstd::prelude::*;

verus! {

/// One step of the walk. `Text` and `Html` name the bytes of the input from
/// `begin` up to and including `end`. An `End` and a `ThematicBreak` name
/// in the same way the bytes of the whole block.
pub enum Mark {
    Begin(TagView),
    End { tag: TagView, begin: int, end: int },
    Text { begin: int, end: int },
    Html { begin: int, end: int },
    ThematicBreak { begin: int, end: int },
}

/// The event that a mark stands for in a given text.
pub open spec fn event_of(text: Seq<u8>, mark: Mark) -> EventView {
    match mark {
        Mark::Begin(tag) => EventView::Begin(tag),
        Mark::End { tag, begin, end } => EventView::End(tag),
        Mark::Text { begin, end } => EventView::Text(text.subrange(begin, end + 1)),
        Mark::Html { begin, end } => EventView::Html(text.subrange(begin, end + 1)),
        Mark::ThematicBreak { begin, end } => EventView::ThematicBreak,
    }
}

/// The events that a sequence of marks stands for in a given text.
pub open spec fn events_of(text: Seq<u8>, marks: Seq<Mark>) -> Seq<EventView> {
    Seq::new(marks.len(), |k: int| event_of(text, marks[k]))
}

/// The mark that a leaf leaves.
pub open spec fn leaf_mark(item: Block) -> Mark {
    match item.kind {
        BlockKind::Html => Mark::Html { begin: item.begin as int, end: item.end as int },
        BlockKind::ThematicBreak => Mark::ThematicBreak {
            begin: item.begin as int,
            end: item.end as int,
        },
        _ => Mark::Text { begin: item.begin as int, end: item.end as int },
    }
}

/// The mark that a container leaves when it closes.
pub open spec fn end_mark(item: Block) -> Mark {
    Mark::End { tag: item.kind.tag().unwrap(), begin: item.begin as int, end: item.end as int }
}

/// The marks that a block leaves, given those of its children: a container
/// puts its `Begin` before and its `End` after them, a leaf leaves its own mark.
pub open spec fn item_marks(item: Block, inner: Seq<Mark>) -> Seq<Mark> {
    match item.kind.tag() {
        Some(tag) => seq![Mark::Begin(tag)] + inner + seq![end_mark(item)],
        None => seq![leaf_mark(item)],
    }
}

/// Whether two blocks leave the same marks around the same children.
pub open spec fn same_marks(a: Block, b: Block) -> bool {
    &&& a.kind.tag() == b.kind.tag()
    &&& leaf_mark(a) == leaf_mark(b)
}

/// Where a link leads among the nodes below `hi`: to its target if that lies
/// after `from` and below `hi`, else to `hi`, which stands for nowhere.
pub open spec fn link(target: Option<usize>, from: int, hi: int) -> int {
    match target {
        Some(index) => if from < index < hi {
            index as int
        } else {
            hi
        },
        None => hi,
    }
}

/// The marks of the walk that starts at node `start` and goes over it, its
/// children and the siblings after it, as far as they lie below `hi`.
pub open spec fn marks_in(nodes: Seq<Node<Block>>, start: int, hi: int) -> Seq<Mark>
    decreases hi - start,
{
    if 0 <= start < hi <= nodes.len() {
        item_marks(
            nodes[start].item,
            marks_in(nodes, link(nodes[start].child, start, hi), hi),
        ) + marks_in(nodes, link(nodes[start].next, start, hi), hi)
    } else {
        Seq::empty()
    }
}

/// The marks of the walk over the whole tree.
pub open spec fn tree_marks(nodes: Seq<Node<Block>>) -> Seq<Mark> {
    marks_in(nodes, 0, nodes.len() as int)
}

/// The containers that are open after the events, when `open` were open
/// before them; `None` if an `End` does not match the last `Begin`.
pub open spec fn nesting(events: Seq<EventView>, open: Seq<TagView>) -> Option<Seq<TagView>>
    decreases events.len(),
{
    if events.len() == 0 {
        Some(open)
    } else {
        match events[0] {
            EventView::Begin(tag) => nesting(events.skip(1), open.push(tag)),
            EventView::End(tag) => if open.len() > 0 && open.last() == tag {
                nesting(events.skip(1), open.drop_last())
            } else {
                None
            },
            _ => nesting(events.skip(1), open),
        }
    }
}

/// Whether every `Begin` is closed by an `End` with the same tag, and the
/// pairs are nested in one another.
pub open spec fn well_nested(events: Seq<EventView>) -> bool {
    nesting(events, Seq::empty()) == Some(Seq::<TagView>::empty())
}

/// The events of two sequences of marks, one after the other.
pub proof fn lemma_events_of_concat(text: Seq<u8>, a: Seq<Mark>, b: Seq<Mark>)
    ensures
        events_of(text, a + b) == events_of(text, a) + events_of(text, b),
{
    assert(events_of(text, a + b) =~= events_of(text, a) + events_of(text, b));
}

/// The events of marks without the first are the events without the first.
pub proof fn lemma_events_of_skip(text: Seq<u8>, marks: Seq<Mark>)
    requires
        marks.len() > 0,
    ensures
        events_of(text, marks.skip(1)) == events_of(text, marks).skip(1),
        events_of(text, marks)[0] == event_of(text, marks[0]),
        events_of(text, marks).len() == marks.len(),
{
    assert(events_of(text, marks.skip(1)) =~= events_of(text, marks).skip(1));
}

/// Nesting goes through a sequence part by part.
pub proof fn lemma_nesting_concat(a: Seq<EventView>, b: Seq<EventView>, open: Seq<TagView>)
    ensures
        nesting(a + b, open) == match nesting(a, open) {
            Some(then) => nesting(b, then),
            None => None,
        },
    decreases a.len(),
{
    if a.len() == 0 {
        assert(a + b =~= b);
    } else {
        assert((a + b).skip(1) =~= a.skip(1) + b);
        assert((a + b)[0] == a[0]);
        match a[0] {
            EventView::Begin(tag) => lemma_nesting_concat(a.skip(1), b, open.push(tag)),
            EventView::End(tag) => {
                if open.len() > 0 && open.last() == tag {
                    lemma_nesting_concat(a.skip(1), b, open.drop_last());
                }
            },
            _ => lemma_nesting_concat(a.skip(1), b, open),
        }
    }
}

/// Nesting over a single event.
pub proof fn lemma_nesting_single(events: Seq<EventView>, open: Seq<TagView>)
    requires
        events.len() == 1,
    ensures
        nesting(events, open) == match events[0] {
            EventView::Begin(tag) => Some(open.push(tag)),
            EventView::End(tag) => if open.len() > 0 && open.last() == tag {
                Some(open.drop_last())
            } else {
                None
            },
            _ => Some(open),
        },
{
    assert(events.skip(1).len() == 0);
    match events[0] {
        EventView::Begin(tag) => {
            assert(nesting(events.skip(1), open.push(tag)) == Some(open.push(tag)));
        },
        EventView::End(tag) => {
            if open.len() > 0 && open.last() == tag {
                assert(nesting(events.skip(1), open.drop_last()) == Some(open.drop_last()));
            }
        },
        _ => {
            assert(nesting(events.skip(1), open) == Some(open));
        },
    }
}

/// The walk over a part of the tree closes what it opens, and nothing else.
pub proof fn lemma_marks_in_nested(
    text: Seq<u8>,
    nodes: Seq<Node<Block>>,
    start: int,
    hi: int,
    open: Seq<TagView>,
)
    ensures
        nesting(events_of(text, marks_in(nodes, start, hi)), open) == Some(open),
    decreases hi - start,
{
    if 0 <= start < hi <= nodes.len() {
        let item = nodes[start].item;
        let inner = marks_in(nodes, link(nodes[start].child, start, hi), hi);
        let rest = marks_in(nodes, link(nodes[start].next, start, hi), hi);
        lemma_marks_in_nested(text, nodes, link(nodes[start].next, start, hi), hi, open);
        lemma_events_of_concat(text, item_marks(item, inner), rest);
        lemma_nesting_concat(
            events_of(text, item_marks(item, inner)),
            events_of(text, rest),
            open,
        );
        match item.kind.tag() {
            Some(tag) => {
                let begin = seq![Mark::Begin(tag)];
                let end = seq![end_mark(item)];
                lemma_marks_in_nested(
                    text,
                    nodes,
                    link(nodes[start].child, start, hi),
                    hi,
                    open.push(tag),
                );
                lemma_events_of_concat(text, begin + inner, end);
                lemma_events_of_concat(text, begin, inner);
                lemma_nesting_concat(
                    events_of(text, begin) + events_of(text, inner),
                    events_of(text, end),
                    open,
                );
                lemma_nesting_concat(events_of(text, begin), events_of(text, inner), open);
                lemma_nesting_single(events_of(text, begin), open);
                lemma_nesting_single(events_of(text, end), open.push(tag));
                assert(open.push(tag).drop_last() =~= open);
            },
            None => {
                let leaf = seq![leaf_mark(item)];
                lemma_nesting_single(events_of(text, leaf), open);
            },
        }
    } else {
        assert(events_of(text, marks_in(nodes, start, hi)) =~= Seq::<EventView>::empty());
    }
}

} // verus!
