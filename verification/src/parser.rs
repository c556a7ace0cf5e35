//! The event stream: a walk over the block tree in pre-order, one event at a time.
use crate::block_level_parser::parse;
use crate::frontier::{links_ok, node_ok, opened_at};
use crate::grammar::document;
use crate::marks::{
    end_mark, event_of, events_of, item_marks, leaf_mark, lemma_marks_in_nested, link, marks_in,
    tree_marks, well_nested, Mark,
};
use crate::spans::{lemma_document_spans, mark_ok, spans_ok};
use crate::text::slice;
use crate::tree::{Tree, TreeView};
use crate::types::block::{Block, BlockKind};
use crate::types::event::{Event, EventView};
use crate::types::tag::Tag;
use vstd::prelude::*;
use vstd::string::StringSliceAdditionalSpecFns;

verus! {

/// The node under the cursor, or the number of nodes if there is none.
pub open spec fn cursor_index(t: TreeView<Block>) -> int {
    match t.current {
        Some(index) => index as int,
        None => t.nodes.len() as int,
    }
}

/// The marks that the walk still leaves after it comes back up to the
/// ancestors above `level`: for each of them its `End`, and the marks of the
/// siblings after it.
pub open spec fn pending_from(t: TreeView<Block>, level: int) -> Seq<Mark>
    decreases level,
{
    if level <= 0 {
        Seq::empty()
    } else {
        let a = t.ancestors[level - 1] as int;
        seq![end_mark(t.nodes[a].item)] + marks_in(
            t.nodes,
            link(t.nodes[a].next, a, t.nodes.len() as int),
            t.nodes.len() as int,
        ) + pending_from(t, level - 1)
    }
}

/// The marks that the walk still leaves from the cursor on.
pub open spec fn pending(t: TreeView<Block>) -> Seq<Mark> {
    marks_in(t.nodes, cursor_index(t), t.nodes.len() as int) + pending_from(
        t,
        t.ancestors.len() as int,
    )
}

/// What holds of a tree under a walk: its links are those of a tree in
/// pre-order, the cursor and the ancestors name nodes that exist, and the
/// ancestors are containers.
pub open spec fn walk_ok(t: TreeView<Block>) -> bool {
    &&& links_ok(t.nodes)
    &&& t.in_bounds()
    &&& forall|j: int| 0 <= j < t.ancestors.len() ==> (#[trigger] opened_at(t, j)).0.is_container()
}

/// The marks to come from the ancestors depend only on those ancestors.
pub proof fn lemma_pending_from_prefix(t: TreeView<Block>, u: TreeView<Block>, level: int)
    requires
        t.nodes == u.nodes,
        0 <= level <= t.ancestors.len(),
        level <= u.ancestors.len(),
        forall|j: int| 0 <= j < level ==> t.ancestors[j] == u.ancestors[j],
    ensures
        pending_from(t, level) == pending_from(u, level),
    decreases level,
{
    if level > 0 {
        lemma_pending_from_prefix(t, u, level - 1);
    }
}

/// One step of the walk from a node: into a container, which leaves its
/// `Begin`, or past a leaf, which leaves its mark.
pub proof fn lemma_step_from_node(t: TreeView<Block>)
    requires
        walk_ok(t),
        t.current.is_some(),
    ensures
        pending(t).len() > 0,
        t.nodes[t.current.unwrap() as int].item.kind.is_container() ==> walk_ok(t.go_to_child())
            && pending(t)[0] == Mark::Begin(
            t.nodes[t.current.unwrap() as int].item.kind.tag().unwrap(),
        ) && pending(t.go_to_child()) == pending(t).skip(1),
        !t.nodes[t.current.unwrap() as int].item.kind.is_container() ==> walk_ok(
            t.go_to_next_sibling(),
        ) && pending(t)[0] == leaf_mark(t.nodes[t.current.unwrap() as int].item) && pending(
            t.go_to_next_sibling(),
        ) == pending(t).skip(1),
{
    let c = t.current.unwrap() as int;
    let n = t.nodes.len() as int;
    let k = t.ancestors.len() as int;
    assert(node_ok(t.nodes, c));
    let inner = marks_in(t.nodes, link(t.nodes[c].child, c, n), n);
    let after = marks_in(t.nodes, link(t.nodes[c].next, c, n), n);
    let rest = pending_from(t, k);
    assert(marks_in(t.nodes, c, n) == item_marks(t.nodes[c].item, inner) + after);
    if t.nodes[c].item.kind.is_container() {
        let u = t.go_to_child();
        let tag = t.nodes[c].item.kind.tag().unwrap();
        assert(cursor_index(u) == link(t.nodes[c].child, c, n));
        assert(u.ancestors.len() == k + 1);
        assert(u.ancestors[k] == c);
        lemma_pending_from_prefix(t, u, k);
        assert(pending_from(u, k + 1) == seq![end_mark(t.nodes[c].item)] + after + pending_from(
            u,
            k,
        ));
        assert(pending(t) =~= seq![Mark::Begin(tag)] + pending(u));
        assert(pending(u) =~= pending(t).skip(1));
        assert forall|j: int| 0 <= j < u.ancestors.len() implies (#[trigger] opened_at(
            u,
            j,
        )).0.is_container() by {
            if j < k {
                assert(opened_at(u, j) == opened_at(t, j));
            }
        }
        assert forall|j: int| 0 <= j < u.ancestors.len() implies #[trigger] u.ancestors[j]
            < u.nodes.len() by {
            if j < k {
                assert(u.ancestors[j] == t.ancestors[j]);
            }
        }
    } else {
        let u = t.go_to_next_sibling();
        assert(cursor_index(u) == link(t.nodes[c].next, c, n));
        lemma_pending_from_prefix(t, u, k);
        assert(pending(t) =~= seq![leaf_mark(t.nodes[c].item)] + pending(u));
        assert(pending(u) =~= pending(t).skip(1));
        assert forall|j: int| 0 <= j < u.ancestors.len() implies (#[trigger] opened_at(
            u,
            j,
        )).0.is_container() by {
            assert(opened_at(u, j) == opened_at(t, j));
        }
    }
}

/// One step of the walk from the end of a level: up to the last ancestor,
/// which leaves its `End`, and on to its next sibling. With no ancestor the
/// walk is over.
pub proof fn lemma_step_from_end(t: TreeView<Block>)
    requires
        walk_ok(t),
        t.current.is_none(),
    ensures
        t.ancestors.len() == 0 ==> pending(t).len() == 0,
        t.ancestors.len() > 0 ==> pending(t).len() > 0 && walk_ok(
            t.go_to_parent().go_to_next_sibling(),
        ) && pending(t)[0] == end_mark(t.nodes[t.ancestors.last() as int].item) && pending(
            t.go_to_parent().go_to_next_sibling(),
        ) == pending(t).skip(1) && t.nodes[t.ancestors.last() as int].item.kind.is_container(),
{
    let n = t.nodes.len() as int;
    let k = t.ancestors.len() as int;
    assert(marks_in(t.nodes, n, n) =~= Seq::<Mark>::empty());
    if k > 0 {
        let a = t.ancestors[k - 1] as int;
        let u = t.go_to_parent().go_to_next_sibling();
        assert(node_ok(t.nodes, a));
        assert(opened_at(t, k - 1).0.is_container());
        let tag = t.nodes[a].item.kind.tag().unwrap();
        assert(cursor_index(u) == link(t.nodes[a].next, a, n));
        assert forall|j: int| 0 <= j < k - 1 implies t.ancestors[j] == u.ancestors[j] by {}
        lemma_pending_from_prefix(t, u, k - 1);
        assert(pending(t) =~= seq![end_mark(t.nodes[a].item)] + pending(u));
        assert(pending(u) =~= pending(t).skip(1));
        assert forall|j: int| 0 <= j < u.ancestors.len() implies (#[trigger] opened_at(
            u,
            j,
        )).0.is_container() by {
            assert(opened_at(u, j) == opened_at(t, j));
        }
        assert forall|j: int| 0 <= j < u.ancestors.len() implies #[trigger] u.ancestors[j]
            < u.nodes.len() by {
            assert(u.ancestors[j] == t.ancestors[j]);
        }
    } else {
        assert(pending(t) =~= Seq::<Mark>::empty());
    }
}

/// A parser: the text, and the tree of its blocks under a walk that gives
/// out one event at a time.
#[derive(Debug)]
pub struct Parser<'a> {
    text: &'a str,
    tree: Tree<Block<'a>>,
}

impl<'a> Parser<'a> {
    /// The bytes of the text.
    pub closed spec fn bytes(&self) -> Seq<u8> {
        self.text.spec_bytes()
    }

    /// The marks that the walk still leaves.
    pub closed spec fn marks(&self) -> Seq<Mark> {
        pending(self.tree@)
    }

    /// The events that the parser still gives out.
    pub open spec fn events(&self) -> Seq<EventView> {
        events_of(self.bytes(), self.marks())
    }

    /// Whether no block is open, as before the first step and after the last.
    pub closed spec fn at_top(&self) -> bool {
        self.tree@.ancestors.len() == 0
    }

    /// What holds of a parser: its tree is in order, and every stretch of
    /// text that the walk still marks lies within the text and may be cut out.
    pub closed spec fn wf(&self) -> bool {
        &&& walk_ok(self.tree@)
        &&& spans_ok(self.text.spec_bytes(), pending(self.tree@))
    }

    /// Whether the parser stands at the start of the walk over the given
    /// text: the events to come are those of the document that the text is.
    pub open spec fn starts(&self, text: &str) -> bool {
        &&& self.wf()
        &&& self.at_top()
        &&& self.bytes() == text.spec_bytes()
        &&& self.marks() == document(text.spec_bytes())
    }

    /// Reads the whole text and sets the walk at its start.
    pub fn new(text: &'a str) -> (parser: Self)
        ensures
            parser.starts(text),
    {
        let tree = parse(text);
        proof {
            lemma_document_spans(text.spec_bytes());
            assert(pending_from(tree@, 0) =~= Seq::<Mark>::empty());
            assert(pending(tree@) =~= tree_marks(tree@.nodes));
        }
        Parser { text, tree }
    }

    /// Gives the tag of a container, and `None` for a leaf.
    fn tag_of(kind: BlockKind<'a>) -> (tag: Option<Tag<'a>>)
        ensures
            match tag {
                Some(tag) => kind.tag() == Some(tag@),
                None => kind.tag().is_none(),
            },
    {
        match kind {
            BlockKind::BlockQuote => Some(Tag::BlockQuote),
            BlockKind::FencedCodeBlock(info) => Some(Tag::FencedCodeBlock(info)),
            BlockKind::Heading(level) => Some(Tag::Heading(level)),
            BlockKind::IndentedCodeBlock => Some(Tag::IndentedCodeBlock),
            BlockKind::Paragraph => Some(Tag::Paragraph),
            BlockKind::Html => None,
            BlockKind::Text => None,
            BlockKind::ThematicBreak => None,
        }
    }

    /// Takes one step of the walk and gives out its event; `None` when the
    /// walk is over, and from then on. The event is the first of those that
    /// were to come, and the others are still to come.
    pub fn next(&mut self) -> (event: Option<Event<'a>>)
        requires
            old(self).wf(),
        ensures
            final(self).wf(),
            final(self).bytes() == old(self).bytes(),
            match event {
                Some(event) => {
                    &&& old(self).marks().len() > 0
                    &&& mark_ok(old(self).bytes(), old(self).marks()[0])
                    &&& event@ == event_of(old(self).bytes(), old(self).marks()[0])
                    &&& final(self).marks() == old(self).marks().skip(1)
                    &&& old(self).events().len() > 0
                    &&& event@ == old(self).events()[0]
                    &&& final(self).events() == old(self).events().skip(1)
                },
                None => old(self).marks().len() == 0 && final(self).marks().len() == 0
                    && old(self).events().len() == 0 && final(self).events().len() == 0
                    && old(self).at_top() && final(self).at_top(),
            },
    {
        let ghost before = self.tree@;
        proof {
            if pending(before).len() > 0 {
                crate::marks::lemma_events_of_skip(self.text.spec_bytes(), pending(before));
            }
        }
        let bytes = self.text.as_bytes();
        proof {
            crate::text::lemma_len_fits(bytes);
        }
        match self.tree.current {
            Some(index) => {
                proof {
                    lemma_step_from_node(before);
                    assert(mark_ok(self.text.spec_bytes(), pending(before)[0]));
                    assert forall|k: int| 0 <= k < pending(before).skip(1).len() implies mark_ok(
                        self.text.spec_bytes(),
                        #[trigger] pending(before).skip(1)[k],
                    ) by {
                        assert(pending(before).skip(1)[k] == pending(before)[k + 1]);
                    }
                }
                let node = self.tree.nodes[index];
                match Self::tag_of(node.item.kind) {
                    Some(tag) => {
                        self.tree.go_to_child();
                        Some(Event::Begin(tag))
                    },
                    None => {
                        self.tree.go_to_next_sibling();
                        match node.item.kind {
                            BlockKind::Html => Some(
                                Event::Html(slice(self.text, node.item.begin, node.item.end + 1)),
                            ),
                            BlockKind::ThematicBreak => Some(Event::ThematicBreak),
                            _ => Some(
                                Event::Text(slice(self.text, node.item.begin, node.item.end + 1)),
                            ),
                        }
                    },
                }
            },
            None => {
                proof {
                    lemma_step_from_end(before);
                    if before.ancestors.len() > 0 {
                        assert forall|k: int|
                            0 <= k < pending(before).skip(1).len() implies mark_ok(
                            self.text.spec_bytes(),
                            #[trigger] pending(before).skip(1)[k],
                        ) by {
                            assert(pending(before).skip(1)[k] == pending(before)[k + 1]);
                        }
                    }
                }
                self.tree.go_to_parent();
                match self.tree.current {
                    Some(index) => {
                        let kind = self.tree.nodes[index].item.kind;
                        self.tree.go_to_next_sibling();
                        match Self::tag_of(kind) {
                            Some(tag) => Some(Event::End(tag)),
                            None => None,
                        }
                    },
                    None => None,
                }
            },
        }
    }
}

/// The events of a parser at its start are well nested: every `Begin` is
/// closed by exactly one `End` with the same tag, after the events of the
/// blocks inside it.
pub proof fn lemma_events_well_nested(parser: Parser)
    requires
        parser.wf(),
        parser.at_top(),
    ensures
        well_nested(parser.events()),
{
    let t = parser.tree@;
    assert(pending_from(t, 0) =~= Seq::<Mark>::empty());
    assert(pending(t) =~= marks_in(t.nodes, cursor_index(t), t.nodes.len() as int));
    lemma_marks_in_nested(
        parser.bytes(),
        t.nodes,
        cursor_index(t),
        t.nodes.len() as int,
        Seq::empty(),
    );
}

/// Two parsers at the start of the same text give out the same events.
pub proof fn lemma_same_text_same_events(first: Parser, second: Parser, text: &str)
    requires
        first.starts(text),
        second.starts(text),
    ensures
        first.events() == second.events(),
{
}

/// Every event that a parser gives out for a stretch of text holds the
/// bytes of the input at that place, and the place lies within the input.
pub proof fn lemma_events_hold_input(parser: Parser, k: int)
    requires
        parser.wf(),
        0 <= k < parser.marks().len(),
    ensures
        mark_ok(parser.bytes(), parser.marks()[k]),
        parser.events()[k] == event_of(parser.bytes(), parser.marks()[k]),
{
}

} // verus!
