//! The block parser: it reads the text line by line and builds the block tree.
use crate::frontier::{
    before_cursor, close_with, detach_close, frontier_ok, kinds_kept, lemma_append,
    lemma_append_context, lemma_append_keeps, lemma_close_with, lemma_cursor_after_ancestors,
    lemma_detach_close, lemma_frontier_in_bounds, lemma_last_ancestor_after, lemma_level_split,
    lemma_open, lemma_open_context, lemma_retag, lemma_set_leaf, lemma_truncate, level_marks,
    level_start, open_begins, open_marks, open_tag, opened_at, reaches, same_context, set_item,
    spine_head, truncate, upto,
};
use crate::grammar::{
    atx_heading, atx_title_end, blocks, begins, code_lines, document, ends, fence_lines,
    fenced_code, html_lines_until_blank, html_lines_until_marker, indented_code, info_begin,
    info_end, leaf, lemma_begins_step, lemma_ends_step, lemma_indent_within_line,
    lemma_line_content, lemma_quote_openers, line_marks, paragraph, paragraph_lines, quote_openers,
};
use crate::marks::{leaf_mark, marks_in, tree_marks, Mark};
use crate::scanner::container::{
    container_markers, lemma_block_quote_marker_len, lemma_container_markers,
    scan_block_quote_marker, scan_container_markers,
};
use crate::scanner::html::{
    contains, scan_html_block_type_1_to_5, scan_html_block_type_6, scan_html_block_type_7,
    HtmlBlockEnd,
};
use crate::scanner::interrupt::{scan_continuation, Continuation};
use crate::scanner::leaf::{
    atx_heading_level, lemma_atx_heading_level, lemma_closing_code_fence_len,
    lemma_opening_code_fence, lemma_thematic_break_len, opening_code_fence, scan_atx_heading,
    scan_closing_code_fence, scan_opening_code_fence, scan_thematic_break,
};
use crate::scanner::line::{
    blank_line_len, lemma_line_end, lemma_line_end_from_inside, lemma_line_ending_len, next_line,
    parse_indent, parse_indent_0_to_4, parse_non_line_ending_whitespaces, parse_spaces,
    parse_spaces_or_tabs, scan_blank_line, scan_indent, skip_line,
};
use crate::text::{
    is_edge, lemma_len_fits, lemma_run_end, lemma_run_end_from_inside, lemma_run_start, run_end,
    skip_run, skip_run_back, slice, ByteClass,
};
use crate::tree::{Tree, TreeView};
use crate::types::block::{Block, BlockKind};
use crate::types::heading::HeadingLevel;
use crate::types::tag::TagView;
use vstd::prelude::*;
use vstd::string::StringSliceAdditionalSpecFns;

verus! {

/// The state of the block parser: the text, its bytes, and the tree built so far.
pub struct Parser<'a> {
    pub text: &'a str,
    pub bytes: &'a [u8],
    pub tree: Tree<Block<'a>>,
}

impl<'a> Parser<'a> {
    /// What holds of the parser between its steps.
    pub open spec fn inv(&self) -> bool {
        &&& self.bytes@ == self.text.spec_bytes()
        &&& frontier_ok(self.tree@)
    }

    /// Whether the parser reads the same text as another.
    pub open spec fn same_text(&self, other: &Self) -> bool {
        self.text == other.text && self.bytes == other.bytes
    }

    /// Makes a parser at the start of the text, with an empty tree.
    pub fn new(text: &'a str) -> (parser: Self)
        ensures
            parser.inv(),
            parser.text == text,
            parser.tree@ == TreeView::<Block<'a>>::empty(),
    {
        let tree = Tree::new();
        proof {
            crate::frontier::lemma_empty_frontier(tree@);
        }
        Parser { text, bytes: text.as_bytes(), tree }
    }

    /// Adds a leaf at the cursor.
    pub fn append_leaf(&mut self, block: Block<'a>)
        requires
            old(self).inv(),
            !block.kind.is_container(),
        ensures
            final(self).inv(),
            final(self).same_text(old(self)),
            final(self).tree@ == old(self).tree@.append(block),
            old(self).tree.nodes@.len() < usize::MAX,
            final(self).tree.current == Some(old(self).tree.nodes@.len() as usize),
            final(self).tree.nodes@.len() == old(self).tree.nodes@.len() + 1,
            final(self).tree.nodes@[old(self).tree.nodes@.len() as int].item == block,
            same_context(old(self).tree@, final(self).tree@),
            level_marks(final(self).tree@) == level_marks(old(self).tree@) + seq![leaf_mark(block)],
            open_marks(final(self).tree@) == open_marks(old(self).tree@) + seq![leaf_mark(block)],
    {
        proof {
            lemma_frontier_in_bounds(self.tree@);
        }
        self.tree.append(block);
        proof {
            lemma_append(old(self).tree@, block);
            lemma_append_context(old(self).tree@, block);
            assert(open_marks(self.tree@) =~= open_marks(old(self).tree@) + seq![
                leaf_mark(block),
            ]);
        }
    }

    /// Adds a container at the cursor and enters it.
    pub fn open(&mut self, block: Block<'a>)
        requires
            old(self).inv(),
            block.kind.is_container(),
        ensures
            final(self).inv(),
            final(self).same_text(old(self)),
            final(self).tree@ == old(self).tree@.append(block).go_to_child(),
            final(self).tree.ancestors@ == old(self).tree.ancestors@.push(
                old(self).tree.nodes@.len() as usize,
            ),
            final(self).tree.current.is_none(),
            level_marks(final(self).tree@) == Seq::<Mark>::empty(),
            spine_head(final(self).tree@) == open_marks(old(self).tree@),
            open_tag(final(self).tree@) == block.kind.tag().unwrap(),
            open_marks(final(self).tree@) == open_marks(old(self).tree@) + seq![
                Mark::Begin(block.kind.tag().unwrap()),
            ],
            kinds_kept(
                old(self).tree@,
                final(self).tree@,
                old(self).tree.ancestors@.len() as int,
            ),
            opened_at(final(self).tree@, old(self).tree.ancestors@.len() as int) == (
                block.kind,
                block.begin,
            ),
            final(self).tree.nodes@.len() == old(self).tree.nodes@.len() + 1,
            final(self).tree.nodes@[old(self).tree.nodes@.len() as int].item == block,
    {
        proof {
            lemma_frontier_in_bounds(self.tree@);
        }
        self.tree.append(block);
        self.tree.go_to_child();
        proof {
            lemma_open(old(self).tree@, block);
            lemma_open_context(old(self).tree@, block);
            assert(open_marks(self.tree@) =~= open_marks(old(self).tree@) + seq![
                Mark::Begin(block.kind.tag().unwrap()),
            ]);
        }
    }

    /// Closes the block that was opened last, which ends with the byte `end`.
    pub fn close(&mut self, end: usize)
        requires
            old(self).inv(),
            old(self).tree.ancestors@.len() > 0,
        ensures
            final(self).inv(),
            final(self).same_text(old(self)),
            final(self).tree@ == close_with(old(self).tree@, end),
            final(self).tree.ancestors@ == old(self).tree.ancestors@.drop_last(),
            final(self).tree.current == Some(old(self).tree.ancestors@.last()),
            final(self).tree.nodes@.len() == old(self).tree.nodes@.len(),
            open_marks(final(self).tree@) == open_marks(old(self).tree@) + seq![
                Mark::End {
                    tag: open_tag(old(self).tree@),
                    begin: opened_at(old(self).tree@, old(self).tree.ancestors@.len() - 1).1 as int,
                    end: end as int,
                },
            ],
            open_marks(old(self).tree@) == spine_head(old(self).tree@) + seq![
                Mark::Begin(open_tag(old(self).tree@)),
            ] + level_marks(old(self).tree@),
            kinds_kept(
                old(self).tree@,
                final(self).tree@,
                old(self).tree.ancestors@.len() - 1,
            ),
    {
        let ghost before = self.tree@;
        proof {
            lemma_close_with(before, end);
            lemma_last_ancestor_after(before);
        }
        self.tree.go_to_parent();
        let index = self.tree.current.unwrap();
        self.tree.nodes[index].item.end = end;
        proof {
            assert(self.tree@.nodes =~= close_with(before, end).nodes);
            assert(self.tree@ == close_with(before, end));
        }
    }

    /// Gives the leaf under the cursor another last byte.
    pub fn set_leaf_end(&mut self, end: usize)
        requires
            old(self).inv(),
            old(self).tree.current.is_some(),
            !old(self).tree.nodes@[old(self).tree.current.unwrap() as int].item.kind.is_container(),
        ensures
            final(self).inv(),
            final(self).same_text(old(self)),
            same_context(old(self).tree@, final(self).tree@),
            final(self).tree.current == old(self).tree.current,
            final(self).tree.nodes@.len() == old(self).tree.nodes@.len(),
            final(self).tree.nodes@[old(self).tree.current.unwrap() as int].item == (Block {
                begin: old(self).tree.nodes@[old(self).tree.current.unwrap() as int].item.begin,
                end,
                kind: old(self).tree.nodes@[old(self).tree.current.unwrap() as int].item.kind,
            }),
            level_marks(old(self).tree@) == before_cursor(old(self).tree@) + seq![
                leaf_mark(old(self).tree.nodes@[old(self).tree.current.unwrap() as int].item),
            ],
            level_marks(final(self).tree@) == before_cursor(old(self).tree@) + seq![
                leaf_mark(final(self).tree.nodes@[old(self).tree.current.unwrap() as int].item),
            ],
            level_marks(old(self).tree@).len() > 0,
            level_marks(final(self).tree@) == level_marks(old(self).tree@).drop_last().push(
                leaf_mark(final(self).tree.nodes@[old(self).tree.current.unwrap() as int].item),
            ),
    {
        let index = self.tree.current.unwrap();
        let ghost before = self.tree@;
        proof {
            crate::frontier::lemma_cursor_facts(before);
        }
        let ghost item = Block {
            begin: before.nodes[index as int].item.begin,
            end,
            kind: before.nodes[index as int].item.kind,
        };
        proof {
            lemma_set_leaf(before, item);
            lemma_cursor_after_ancestors(before);
        }
        self.tree.nodes[index].item.end = end;
        proof {
            assert(self.tree@.nodes =~= set_item(before, index as int, item).nodes);
            assert(self.tree@ == set_item(before, index as int, item));
            assert forall|j: int| 0 <= j < before.ancestors.len() implies #[trigger] opened_at(
                self.tree@,
                j,
            ) == opened_at(before, j) by {
                assert(before.ancestors[j] < index);
            }
            assert(level_marks(self.tree@) =~= level_marks(before).drop_last().push(
                leaf_mark(item),
            ));
        }
    }

    /// Gives the block that was opened last another kind.
    pub fn retag(&mut self, kind: BlockKind<'a>)
        requires
            old(self).inv(),
            old(self).tree.ancestors@.len() > 0,
            kind.is_container(),
        ensures
            final(self).inv(),
            final(self).same_text(old(self)),
            final(self).tree.ancestors@ == old(self).tree.ancestors@,
            final(self).tree.current == old(self).tree.current,
            final(self).tree.nodes@.len() == old(self).tree.nodes@.len(),
            spine_head(final(self).tree@) == spine_head(old(self).tree@),
            open_tag(final(self).tree@) == kind.tag().unwrap(),
            opened_at(final(self).tree@, old(self).tree.ancestors@.len() - 1) == (
                kind,
                opened_at(old(self).tree@, old(self).tree.ancestors@.len() - 1).1,
            ),
            level_marks(final(self).tree@) == level_marks(old(self).tree@),
            old(self).tree.current.is_some() ==> before_cursor(final(self).tree@) == before_cursor(
                old(self).tree@,
            ) && final(self).tree.nodes@[old(self).tree.current.unwrap() as int]
                == old(self).tree.nodes@[old(self).tree.current.unwrap() as int],
            kinds_kept(
                old(self).tree@,
                final(self).tree@,
                old(self).tree.ancestors@.len() - 1,
            ),
    {
        let ghost before = self.tree@;
        proof {
            lemma_last_ancestor_after(before);
            if before.current.is_some() {
                lemma_cursor_after_ancestors(before);
                crate::frontier::lemma_cursor_facts(before);
                assert(before.ancestors[before.ancestors.len() - 1] < before.current.unwrap());
            }
        }
        let depth = self.tree.ancestors.len();
        let index = self.tree.ancestors[depth - 1];
        let ghost item = Block {
            begin: before.nodes[index as int].item.begin,
            end: before.nodes[index as int].item.end,
            kind,
        };
        self.tree.nodes[index].item.kind = kind;
        proof {
            lemma_retag(before, item);
            assert(self.tree@.nodes =~= set_item(before, index as int, item).nodes);
            assert(self.tree@ == set_item(before, index as int, item));
            assert forall|j: int| 0 <= j < before.ancestors.len() - 1 implies #[trigger] opened_at(
                self.tree@,
                j,
            ) == opened_at(before, j) by {
                assert(before.ancestors[j] < before.ancestors.last());
            }
        }
    }

    /// Takes the children from the block that was opened last, and closes
    /// it; it ends with the byte `end`.
    pub fn detach_and_close(&mut self, end: usize)
        requires
            old(self).inv(),
            old(self).tree.ancestors@.len() > 0,
        ensures
            final(self).inv(),
            final(self).same_text(old(self)),
            final(self).tree@ == detach_close(old(self).tree@, end),
            final(self).tree.ancestors@ == old(self).tree.ancestors@.drop_last(),
            final(self).tree.current == Some(old(self).tree.ancestors@.last()),
            open_marks(final(self).tree@) == spine_head(old(self).tree@) + seq![
                Mark::Begin(open_tag(old(self).tree@)),
                Mark::End {
                    tag: open_tag(old(self).tree@),
                    begin: opened_at(old(self).tree@, old(self).tree.ancestors@.len() - 1).1 as int,
                    end: end as int,
                },
            ],
            kinds_kept(
                old(self).tree@,
                final(self).tree@,
                old(self).tree.ancestors@.len() - 1,
            ),
    {
        let ghost before = self.tree@;
        proof {
            lemma_detach_close(before, end);
            lemma_last_ancestor_after(before);
        }
        let depth = self.tree.ancestors.len();
        let index = self.tree.ancestors[depth - 1];
        self.tree.nodes[index].child = None;
        self.tree.go_to_parent();
        self.tree.nodes[index].item.end = end;
        proof {
            assert(self.tree@.nodes =~= detach_close(before, end).nodes);
            assert(self.tree@ == detach_close(before, end));
        }
    }

    /// Cuts off the siblings after the leaf `index` of the deepest open
    /// level, and moves the cursor back to it.
    pub fn truncate_after(&mut self, index: usize)
        requires
            old(self).inv(),
            old(self).tree.current.is_some(),
            index <= old(self).tree.current.unwrap(),
            reaches(
                old(self).tree.nodes@,
                level_start(old(self).tree@, old(self).tree.ancestors@.len() as int),
                index as int,
            ),
            upto(old(self).tree.nodes@, index as int),
            !old(self).tree.nodes@[index as int].item.kind.is_container(),
        ensures
            final(self).inv(),
            final(self).same_text(old(self)),
            same_context(old(self).tree@, final(self).tree@),
            level_marks(final(self).tree@) == marks_in(
                old(self).tree.nodes@,
                level_start(old(self).tree@, old(self).tree.ancestors@.len() as int),
                index as int,
            ) + seq![leaf_mark(old(self).tree.nodes@[index as int].item)],
    {
        let ghost before = self.tree@;
        proof {
            lemma_truncate(before, index as int);
            crate::frontier::lemma_level_after_ancestors(before, index as int);
        }
        self.tree.nodes[index].next = None;
        self.tree.current = Some(index);
        proof {
            assert(self.tree@.nodes =~= truncate(before, index as int).nodes);
            assert(self.tree@ == truncate(before, index as int));
            assert forall|j: int| 0 <= j < before.ancestors.len() implies #[trigger] opened_at(
                self.tree@,
                j,
            ) == opened_at(before, j) by {
                assert(before.ancestors[j] < index);
            }
        }
    }

    /// Whether all open blocks are block quotes.
    pub open spec fn in_quotes(&self) -> bool {
        forall|j: int|
            0 <= j < self.tree.ancestors@.len() ==> (#[trigger] opened_at(self.tree@, j)).0
                == BlockKind::<'a>::BlockQuote
    }

    /// Whether the parser has gone from `before` to this state by a step
    /// that left `marks` and closed what it opened.
    pub open spec fn stepped(&self, before: &Self, marks: Seq<Mark>) -> bool {
        &&& self.inv()
        &&& self.same_text(before)
        &&& self.tree.ancestors@ == before.tree.ancestors@
        &&& kinds_kept(before.tree@, self.tree@, before.tree.ancestors@.len() as int)
        &&& open_marks(self.tree@) == open_marks(before.tree@) + marks
    }

    /// Takes the line that starts at `index` as text, line ending included,
    /// and returns the index after it.
    pub fn parse_line(&mut self, index: usize) -> (next: usize)
        requires
            old(self).inv(),
        ensures
            final(self).inv(),
            final(self).same_text(old(self)),
            same_context(old(self).tree@, final(self).tree@),
            next == next_line(old(self).bytes@, index as int),
            index <= next,
            index < old(self).bytes@.len() ==> index < next <= old(self).bytes@.len(),
            level_marks(final(self).tree@) == level_marks(old(self).tree@) + line_marks(
                old(self).bytes@,
                index as int,
            ),
            open_marks(final(self).tree@) == open_marks(old(self).tree@) + line_marks(
                old(self).bytes@,
                index as int,
            ),
            index < old(self).bytes@.len() ==> final(self).tree@ == old(self).tree@.append(
                Block { begin: index, end: (next - 1) as usize, kind: BlockKind::Text },
            ) && old(self).tree.nodes@.len() < usize::MAX && final(self).tree.current == Some(
                old(self).tree.nodes@.len() as usize,
            ) && final(self).tree.nodes@.len() == old(self).tree.nodes@.len() + 1
                && final(self).tree.nodes@[old(self).tree.nodes@.len() as int].item == (Block {
                begin: index,
                end: (next - 1) as usize,
                kind: BlockKind::Text,
            }),
            index >= old(self).bytes@.len() ==> final(self).tree@ == old(self).tree@,
    {
        proof {
            lemma_line_end(self.bytes@, index as int);
            lemma_run_end(self.bytes@, ByteClass::LineContent, index as int);
        }
        if index >= self.bytes.len() {
            proof {
                assert(level_marks(self.tree@) + line_marks(self.bytes@, index as int)
                    =~= level_marks(self.tree@));
                assert(open_marks(self.tree@) + line_marks(self.bytes@, index as int)
                    =~= open_marks(self.tree@));
            }
            return index;
        }
        let next = skip_line(self.bytes, index);
        self.append_leaf(Block { begin: index, end: next - 1, kind: BlockKind::Text });
        next
    }

    /// Takes the thematic break of the given length at `index`, and returns
    /// the index after it.
    pub fn parse_thematic_break(&mut self, index: usize, length: usize) -> (next: usize)
        requires
            old(self).inv(),
            1 <= length,
            index + length <= old(self).bytes@.len(),
        ensures
            final(self).stepped(
                old(self),
                seq![Mark::ThematicBreak { begin: index as int, end: index + length - 1 }],
            ),
            final(self).tree@ == old(self).tree@.append(
                Block {
                    begin: index,
                    end: (index + length - 1) as usize,
                    kind: BlockKind::ThematicBreak,
                },
            ),
            next == index + length,
    {
        proof {
            lemma_len_fits(self.bytes);
        }
        let end = index + length;
        self.append_leaf(Block { begin: index, end: end - 1, kind: BlockKind::ThematicBreak });
        end
    }

    /// Takes the ATX heading of the given level that starts at `index` with
    /// its first `#`, and returns the index after its line.
    pub fn parse_atx_heading(&mut self, index: usize, level: HeadingLevel) -> (next: usize)
        requires
            old(self).inv(),
            atx_heading_level(old(self).bytes@, index as int) == Some(level),
            run_end(old(self).bytes@, ByteClass::Space, index as int) == index,
        ensures
            final(self).stepped(
                old(self),
                atx_heading(old(self).bytes@, index as int, level).marks,
            ),
            next == atx_heading(old(self).bytes@, index as int, level).next,
            index < next <= old(self).bytes@.len(),
    {
        let ghost text = self.bytes@;
        let ghost before = self.tree@;
        proof {
            lemma_len_fits(self.bytes);
            lemma_atx_heading_level(text, index as int);
        }
        self.open(Block { begin: index, end: 0, kind: BlockKind::Heading(level) });
        let begin = parse_non_line_ending_whitespaces(self.bytes, index + level.to_usize());
        let ghost opened = self.tree@;
        let next = self.parse_line(begin);
        proof {
            lemma_line_end(text, begin as int);
            assert(before.ancestors.push(before.nodes.len() as usize).drop_last()
                =~= before.ancestors);
        }
        if begin < self.bytes.len() {
            let end = skip_run(self.bytes, ByteClass::LineContent, begin);
            let title_end = scan_atx_title_end(self.bytes, begin, end);
            self.set_leaf_end(title_end - 1);
            if title_end == begin {
                self.detach_and_close(next - 1);
            } else {
                proof {
                    assert(level_marks(self.tree@) =~= seq![
                        Mark::Text { begin: begin as int, end: title_end - 1 },
                    ]);
                }
                self.close(next - 1);
            }
        } else {
            self.close(next - 1);
        }
        proof {
            assert(open_marks(self.tree@) =~= open_marks(before) + atx_heading(
                text,
                index as int,
                level,
            ).marks);
        }
        next
    }

    /// Takes the paragraph that starts at `index` inside `depth` block
    /// quotes, which may turn out to be a setext heading, and returns the
    /// index after it.
    pub fn parse_setext_heading_or_paragraph(&mut self, index: usize, depth: usize) -> (next:
        usize)
        requires
            old(self).inv(),
            blank_line_len(old(self).bytes@, index as int).is_none(),
        ensures
            final(self).stepped(
                old(self),
                paragraph(old(self).bytes@, index as int, depth as nat).marks,
            ),
            next == paragraph(old(self).bytes@, index as int, depth as nat).next,
            index < next <= old(self).bytes@.len(),
    {
        let ghost text = self.bytes@;
        let ghost before = self.tree@;
        let ghost whole = paragraph_lines(text, index as int, depth as nat);
        proof {
            lemma_len_fits(self.bytes);
            lemma_line_content(text, index as int);
        }
        self.open(Block { begin: index, end: 0, kind: BlockKind::Paragraph });
        let mut i: usize = index;
        let mut done = false;
        let ghost mut acc: Seq<Mark> = Seq::empty();
        while !done
            invariant
                self.inv(),
                self.same_text(old(self)),
                text == self.bytes@,
                text.len() <= usize::MAX,
                self.tree.ancestors@ == before.ancestors.push(before.nodes.len() as usize),
                kinds_kept(before, self.tree@, before.ancestors.len() as int),
                spine_head(self.tree@) == open_marks(before),
                opened_at(self.tree@, before.ancestors.len() as int).1 == index,
                index <= i <= text.len(),
                whole == paragraph_lines(text, index as int, depth as nat),
                !done ==> {
                    &&& i < text.len()
                    &&& blank_line_len(text, i as int).is_none()
                    &&& open_tag(self.tree@) == TagView::Paragraph
                    &&& level_marks(self.tree@) == acc
                    &&& whole.marks == acc + paragraph_lines(text, i as int, depth as nat).marks
                    &&& whole.tag == paragraph_lines(text, i as int, depth as nat).tag
                    &&& whole.next == paragraph_lines(text, i as int, depth as nat).next
                },
                done ==> {
                    &&& open_tag(self.tree@) == whole.tag
                    &&& level_marks(self.tree@) == whole.marks
                    &&& i == whole.next
                    &&& index < i
                },
            decreases
                    if done {
                        0
                    } else {
                        text.len() - i + 1
                    },
        {
            proof {
                lemma_line_content(text, i as int);
            }
            let begin = parse_spaces_or_tabs(self.bytes, i);
            let line = self.parse_line(begin);
            let end = skip_run(self.bytes, ByteClass::LineContent, begin);
            proof {
                lemma_container_markers(text, line as int, depth as nat);
                lemma_run_start(text, ByteClass::Blank, begin as int, end as int);
                let content = container_markers(text, line as int, depth as nat).1;
                crate::scanner::interrupt::lemma_setext_underline(
                    text,
                    run_end(text, ByteClass::Space, content),
                );
                lemma_run_end(text, ByteClass::Space, content);
                lemma_run_end(text, ByteClass::Blank, content);
            }
            match scan_continuation(self.bytes, line, depth) {
                Continuation::Underline { level, next } => {
                    self.retag(BlockKind::Heading(level));
                    let trimmed = skip_run_back(self.bytes, ByteClass::Blank, begin, end);
                    self.set_leaf_end(trimmed - 1);
                    proof {
                        assert(level_marks(self.tree@) =~= acc + seq![
                            Mark::Text { begin: begin as int, end: trimmed - 1 },
                        ]);
                    }
                    i = next;
                    done = true;
                },
                Continuation::Interrupt => {
                    self.set_leaf_end(end - 1);
                    proof {
                        assert(level_marks(self.tree@) =~= acc + seq![
                            Mark::Text { begin: begin as int, end: end - 1 },
                        ]);
                    }
                    i = line;
                    done = true;
                },
                Continuation::Continue { from } => {
                    proof {
                        let rest = paragraph_lines(text, from as int, depth as nat);
                        let own = seq![Mark::Text { begin: begin as int, end: line - 1 }];
                        assert(acc + (own + rest.marks) =~= (acc + own) + rest.marks);
                        acc = acc + own;
                    }
                    i = from;
                },
            }
        }
        self.close(i - 1);
        proof {
            assert(before.ancestors.push(before.nodes.len() as usize).drop_last()
                =~= before.ancestors);
            assert(open_marks(self.tree@) =~= open_marks(before) + paragraph(
                text,
                index as int,
                depth as nat,
            ).marks);
        }
        i
    }

    /// Takes the indented code block that starts on the line whose content
    /// starts at `index`, inside `depth` block quotes, and returns the
    /// index after it.
    pub fn parse_indented_code_block(&mut self, index: usize, depth: usize) -> (next: usize)
        requires
            old(self).inv(),
            blank_line_len(old(self).bytes@, index as int).is_none(),
        ensures
            final(self).stepped(
                old(self),
                indented_code(old(self).bytes@, index as int, depth as nat).marks,
            ),
            next == indented_code(old(self).bytes@, index as int, depth as nat).next,
            index < next <= old(self).bytes@.len(),
    {
        let ghost text = self.bytes@;
        let ghost before = self.tree@;
        let ghost whole = code_lines(text, index as int, depth as nat);
        proof {
            lemma_len_fits(self.bytes);
            lemma_line_content(text, index as int);
        }
        self.open(Block { begin: index, end: 0, kind: BlockKind::IndentedCodeBlock });
        let ghost level: int = before.ancestors.len() as int + 1;
        let mut i: usize = index;
        let mut done = false;
        let mut last_non_blank_node: Option<usize> = None;
        let ghost mut acc: Seq<Mark> = Seq::empty();
        let ghost mut kept: int = 0;
        while !done
            invariant
                self.inv(),
                self.same_text(old(self)),
                text == self.bytes@,
                text.len() <= usize::MAX,
                self.tree.ancestors@ == before.ancestors.push(before.nodes.len() as usize),
                level == before.ancestors.len() + 1,
                kinds_kept(before, self.tree@, before.ancestors.len() as int),
                spine_head(self.tree@) == open_marks(before),
                opened_at(self.tree@, before.ancestors.len() as int).1 == index,
                open_tag(self.tree@) == TagView::IndentedCodeBlock,
                level_marks(self.tree@) == acc,
                index <= i <= text.len(),
                whole == code_lines(text, index as int, depth as nat),
                blank_line_len(text, index as int).is_none(),
                0 <= kept <= acc.len(),
                kept == 0 ==> !done && i == index && last_non_blank_node.is_none(),
                kept > 0 ==> {
                    &&& index < i
                    &&& last_non_blank_node.is_some()
                    &&& self.tree.current.is_some()
                    &&& last_non_blank_node.unwrap() <= self.tree.current.unwrap()
                    &&& reaches(
                        self.tree.nodes@,
                        level_start(self.tree@, level),
                        last_non_blank_node.unwrap() as int,
                    )
                    &&& upto(self.tree.nodes@, last_non_blank_node.unwrap() as int)
                    &&& !self.tree.nodes@[last_non_blank_node.unwrap()
                        as int].item.kind.is_container()
                    &&& marks_in(
                        self.tree.nodes@,
                        level_start(self.tree@, level),
                        last_non_blank_node.unwrap() as int,
                    ) + seq![
                        leaf_mark(self.tree.nodes@[last_non_blank_node.unwrap() as int].item),
                    ] == acc.take(kept)
                },
                !done ==> {
                    &&& whole.marks == acc + code_lines(text, i as int, depth as nat).marks
                    &&& whole.kept == if code_lines(text, i as int, depth as nat).kept > 0 {
                        acc.len() + code_lines(text, i as int, depth as nat).kept
                    } else {
                        kept
                    }
                    &&& whole.next == code_lines(text, i as int, depth as nat).next
                },
                done ==> whole.marks == acc && whole.kept == kept && whole.next == i,
            decreases
                    if done {
                        0
                    } else {
                        text.len() - i + 1
                    },
        {
            let ghost entry = self.tree@;
            let ghost entry_acc = acc;
            let is_non_blank = scan_blank_line(self.bytes, i).is_none();
            proof {
                lemma_indent_within_line(text, i as int, 4);
                lemma_line_end(text, i as int);
            }
            let begin = parse_indent_0_to_4(self.bytes, i);
            let line = self.parse_line(begin);
            proof {
                acc = acc + line_marks(text, begin as int);
                if begin < text.len() {
                    let block = Block {
                        begin,
                        end: (line - 1) as usize,
                        kind: BlockKind::<'a>::Text,
                    };
                    if !is_non_blank {
                        lemma_append_keeps(entry, block, last_non_blank_node.unwrap() as int);
                        assert(acc.take(kept) =~= entry_acc.take(kept));
                    }
                }
            }
            if is_non_blank {
                last_non_blank_node = self.tree.current;
                proof {
                    kept = acc.len() as int;
                    lemma_level_split(self.tree@);
                    crate::frontier::lemma_cursor_facts(self.tree@);
                    assert(acc.take(kept) =~= acc);
                }
            }
            let (matched, content) = scan_container_markers(self.bytes, line, depth);
            proof {
                lemma_container_markers(text, line as int, depth as nat);
                let rest = code_lines(text, content as int, depth as nat);
                let own = line_marks(text, begin as int);
                assert(entry_acc + (own + rest.marks) =~= (entry_acc + own) + rest.marks);
            }
            if line < self.bytes.len() && matched == depth && (scan_indent(self.bytes, content)
                == 4 || scan_blank_line(self.bytes, content).is_some()) {
                i = content;
            } else {
                i = line;
                done = true;
            }
        }
        match last_non_blank_node {
            Some(node_index) => {
                self.truncate_after(node_index);
            },
            None => {},
        }
        self.close(i - 1);
        proof {
            assert(before.ancestors.push(before.nodes.len() as usize).drop_last()
                =~= before.ancestors);
            assert(open_marks(self.tree@) =~= open_marks(before) + indented_code(
                text,
                index as int,
                depth as nat,
            ).marks);
        }
        i
    }

    /// Takes the fenced code block whose fence of `count` times `byte`
    /// opens at `index`, on a line whose content starts at `content`,
    /// inside `depth` block quotes, and returns the index after it.
    pub fn parse_fenced_code_block(
        &mut self,
        content: usize,
        index: usize,
        count: usize,
        byte: u8,
        depth: usize,
    ) -> (next: usize)
        requires
            old(self).inv(),
            content <= index,
            opening_code_fence(old(self).bytes@, index as int) == Some((count as int, byte)),
        ensures
            final(self).stepped(
                old(self),
                fenced_code(
                    old(self).bytes@,
                    content as int,
                    index as int,
                    count as int,
                    byte,
                    depth as nat,
                ).marks,
            ),
            next == fenced_code(
                old(self).bytes@,
                content as int,
                index as int,
                count as int,
                byte,
                depth as nat,
            ).next,
            index < next <= old(self).bytes@.len(),
    {
        let ghost text = self.bytes@;
        let ghost before = self.tree@;
        proof {
            lemma_len_fits(self.bytes);
            lemma_opening_code_fence(text, index as int);
            lemma_line_end(text, index as int);
        }
        let info_begin = parse_non_line_ending_whitespaces(self.bytes, index + count);
        let end = skip_run(self.bytes, ByteClass::LineContent, info_begin);
        let info_end = skip_run_back(self.bytes, ByteClass::Blank, info_begin, end);
        proof {
            lemma_run_end(text, ByteClass::Blank, index + count);
            lemma_run_end(text, ByteClass::LineContent, info_begin as int);
            lemma_run_start(text, ByteClass::Blank, info_begin as int, end as int);
            assert(text[info_begin - 1] < 0x80) by {
                if info_begin > index + count {
                    assert(ByteClass::Blank.holds(text[info_begin - 1]));
                } else {
                    assert(text[info_begin - 1] == byte);
                }
            }
            if info_begin < info_end {
                if info_end < end {
                    assert(ByteClass::Blank.holds(text[info_end as int]));
                } else if end < text.len() {
                    assert(!ByteClass::LineContent.holds(text[end as int]));
                }
            }
            assert(is_edge(text, info_begin as int));
            assert(is_edge(text, info_end as int));
        }
        let info = slice(self.text, info_begin, info_end);
        let ghost tag = TagView::FencedCodeBlock(
            text.subrange(info_begin as int, info_end as int),
        );
        self.open(Block { begin: index, end: 0, kind: BlockKind::FencedCodeBlock(info) });
        let first = skip_line(self.bytes, index);
        let width = index - content;
        let ghost whole = fence_lines(
            text,
            first as int,
            width as int,
            count as int,
            byte,
            depth as nat,
        );
        let mut i: usize = first;
        let mut done = false;
        let ghost mut acc: Seq<Mark> = Seq::empty();
        while !done
            invariant
                self.inv(),
                self.same_text(old(self)),
                text == self.bytes@,
                text.len() <= usize::MAX,
                count >= 3,
                self.tree.ancestors@ == before.ancestors.push(before.nodes.len() as usize),
                kinds_kept(before, self.tree@, before.ancestors.len() as int),
                spine_head(self.tree@) == open_marks(before),
                opened_at(self.tree@, before.ancestors.len() as int).1 == index,
                open_tag(self.tree@) == tag,
                level_marks(self.tree@) == acc,
                index < first <= i <= text.len(),
                whole == fence_lines(
                    text,
                    first as int,
                    width as int,
                    count as int,
                    byte,
                    depth as nat,
                ),
                !done ==> {
                    &&& whole.marks == acc + fence_lines(
                        text,
                        i as int,
                        width as int,
                        count as int,
                        byte,
                        depth as nat,
                    ).marks
                    &&& whole.next == fence_lines(
                        text,
                        i as int,
                        width as int,
                        count as int,
                        byte,
                        depth as nat,
                    ).next
                },
                done ==> whole.marks == acc && whole.next == i,
            decreases
                    if done {
                        0
                    } else {
                        text.len() - i + 1
                    },
        {
            if i >= self.bytes.len() {
                proof {
                    assert(acc + Seq::<Mark>::empty() =~= acc);
                }
                done = true;
            } else {
                let (matched, inner) = scan_container_markers(self.bytes, i, depth);
                proof {
                    lemma_container_markers(text, i as int, depth as nat);
                    assert(acc + Seq::<Mark>::empty() =~= acc);
                }
                if matched < depth {
                    done = true;
                } else {
                    let fence = parse_spaces(self.bytes, inner);
                    proof {
                        lemma_closing_code_fence_len(text, fence as int, byte, count as int);
                    }
                    let closing = if fence - inner < 4 {
                        scan_closing_code_fence(self.bytes, fence, byte, count)
                    } else {
                        None
                    };
                    match closing {
                        Some(length) => {
                            i = fence + length;
                            done = true;
                        },
                        None => {
                            proof {
                                lemma_indent_within_line(text, inner as int, width as int);
                                lemma_line_end(text, i as int);
                                lemma_line_end_from_inside(text, i as int, inner as int);
                            }
                            let begin = parse_indent(self.bytes, inner, width);
                            let line = self.parse_line(begin);
                            proof {
                                let rest = fence_lines(
                                    text,
                                    line as int,
                                    width as int,
                                    count as int,
                                    byte,
                                    depth as nat,
                                );
                                let own = line_marks(text, begin as int);
                                assert(acc + (own + rest.marks) =~= (acc + own) + rest.marks);
                                acc = acc + own;
                            }
                            i = line;
                        },
                    }
                }
            }
        }
        self.close(i - 1);
        proof {
            assert(before.ancestors.push(before.nodes.len() as usize).drop_last()
                =~= before.ancestors);
            assert(open_marks(self.tree@) =~= open_marks(before) + fenced_code(
                text,
                content as int,
                index as int,
                count as int,
                byte,
                depth as nat,
            ).marks);
        }
        i
    }

    /// Takes the HTML block that starts on the line whose content starts at
    /// `index` and ends with the line that holds the closing marker,
    /// inside `depth` block quotes, and returns the index after it.
    pub fn parse_html_block_until_marker(
        &mut self,
        index: usize,
        end: HtmlBlockEnd,
        depth: usize,
    ) -> (next: usize)
        requires
            old(self).inv(),
            index < old(self).bytes@.len(),
        ensures
            final(self).stepped(
                old(self),
                html_lines_until_marker(old(self).bytes@, index as int, end, depth as nat).marks,
            ),
            next == html_lines_until_marker(old(self).bytes@, index as int, end, depth as nat).next,
            index < next <= old(self).bytes@.len(),
    {
        let ghost text = self.bytes@;
        let ghost before = self.tree@;
        let ghost whole = html_lines_until_marker(text, index as int, end, depth as nat);
        let marker = end.marker_str().as_bytes();
        let mut i: usize = index;
        let mut done = false;
        let ghost mut acc: Seq<Mark> = Seq::empty();
        proof {
            assert(open_marks(before) + acc =~= open_marks(before));
        }
        while !done
            invariant
                self.inv(),
                self.same_text(old(self)),
                text == self.bytes@,
                marker@ == end.marker(),
                self.tree.ancestors@ == before.ancestors,
                kinds_kept(before, self.tree@, before.ancestors.len() as int),
                open_marks(self.tree@) == open_marks(before) + acc,
                index <= i <= text.len(),
                whole == html_lines_until_marker(text, index as int, end, depth as nat),
                !done ==> {
                    &&& i < text.len()
                    &&& whole.marks == acc + html_lines_until_marker(
                        text,
                        i as int,
                        end,
                        depth as nat,
                    ).marks
                    &&& whole.next == html_lines_until_marker(
                        text,
                        i as int,
                        end,
                        depth as nat,
                    ).next
                },
                done ==> whole.marks == acc && whole.next == i && index < i,
            decreases
                    if done {
                        0
                    } else {
                        text.len() - i + 1
                    },
        {
            let line = skip_line(self.bytes, i);
            let ghost own = seq![Mark::Html { begin: i as int, end: line - 1 }];
            self.append_leaf(Block { begin: i, end: line - 1, kind: BlockKind::Html });
            proof {
                assert((open_marks(before) + acc) + own =~= open_marks(before) + (acc + own));
                lemma_container_markers(text, line as int, depth as nat);
            }
            if contains(self.bytes, i, line, marker) || line >= self.bytes.len() {
                proof {
                    acc = acc + own;
                }
                i = line;
                done = true;
            } else {
                let (matched, content) = scan_container_markers(self.bytes, line, depth);
                if matched < depth || content >= self.bytes.len() {
                    proof {
                        acc = acc + own;
                    }
                    i = line;
                    done = true;
                } else {
                    proof {
                        let rest = html_lines_until_marker(
                            text,
                            content as int,
                            end,
                            depth as nat,
                        );
                        assert(acc + (own + rest.marks) =~= (acc + own) + rest.marks);
                        acc = acc + own;
                    }
                    i = content;
                }
            }
        }
        i
    }

    /// Takes the HTML block that starts on the line whose content starts at
    /// `index` and ends before a blank line, inside `depth` block quotes,
    /// and returns the index after it.
    pub fn parse_html_block_until_blank(&mut self, index: usize, depth: usize) -> (next: usize)
        requires
            old(self).inv(),
            index < old(self).bytes@.len(),
        ensures
            final(self).stepped(
                old(self),
                html_lines_until_blank(old(self).bytes@, index as int, depth as nat).marks,
            ),
            next == html_lines_until_blank(old(self).bytes@, index as int, depth as nat).next,
            index < next <= old(self).bytes@.len(),
    {
        let ghost text = self.bytes@;
        let ghost before = self.tree@;
        let ghost whole = html_lines_until_blank(text, index as int, depth as nat);
        let mut i: usize = index;
        let mut done = false;
        let ghost mut acc: Seq<Mark> = Seq::empty();
        proof {
            assert(open_marks(before) + acc =~= open_marks(before));
        }
        while !done
            invariant
                self.inv(),
                self.same_text(old(self)),
                text == self.bytes@,
                self.tree.ancestors@ == before.ancestors,
                kinds_kept(before, self.tree@, before.ancestors.len() as int),
                open_marks(self.tree@) == open_marks(before) + acc,
                index <= i <= text.len(),
                whole == html_lines_until_blank(text, index as int, depth as nat),
                !done ==> {
                    &&& i < text.len()
                    &&& whole.marks == acc + html_lines_until_blank(
                        text,
                        i as int,
                        depth as nat,
                    ).marks
                    &&& whole.next == html_lines_until_blank(text, i as int, depth as nat).next
                },
                done ==> whole.marks == acc && whole.next == i && index < i,
            decreases
                    if done {
                        0
                    } else {
                        text.len() - i + 1
                    },
        {
            let line = skip_line(self.bytes, i);
            let ghost own = seq![Mark::Html { begin: i as int, end: line - 1 }];
            self.append_leaf(Block { begin: i, end: line - 1, kind: BlockKind::Html });
            proof {
                assert((open_marks(before) + acc) + own =~= open_marks(before) + (acc + own));
                lemma_container_markers(text, line as int, depth as nat);
            }
            if line >= self.bytes.len() {
                proof {
                    acc = acc + own;
                }
                i = line;
                done = true;
            } else {
                let (matched, content) = scan_container_markers(self.bytes, line, depth);
                if matched < depth || scan_blank_line(self.bytes, content).is_some() || content
                    >= self.bytes.len() {
                    proof {
                        acc = acc + own;
                    }
                    i = line;
                    done = true;
                } else {
                    proof {
                        let rest = html_lines_until_blank(text, content as int, depth as nat);
                        assert(acc + (own + rest.marks) =~= (acc + own) + rest.marks);
                        acc = acc + own;
                    }
                    i = content;
                }
            }
        }
        i
    }

    /// Takes the block that starts on the line whose content starts at
    /// `index`, inside `depth` block quotes, and returns the index after it.
    pub fn parse_leaf(&mut self, index: usize, depth: usize) -> (next: usize)
        requires
            old(self).inv(),
            index <= old(self).bytes@.len(),
        ensures
            final(self).stepped(
                old(self),
                leaf(old(self).bytes@, index as int, depth as nat).marks,
            ),
            next == leaf(old(self).bytes@, index as int, depth as nat).next,
            index <= next <= old(self).bytes@.len(),
            index < old(self).bytes@.len() ==> index < next,
    {
        let ghost text = self.bytes@;
        proof {
            lemma_len_fits(self.bytes);
            lemma_run_end(text, ByteClass::Blank, index as int);
            lemma_line_ending_len(text, run_end(text, ByteClass::Blank, index as int));
            assert(open_marks(self.tree@) + Seq::<Mark>::empty() =~= open_marks(self.tree@));
        }
        match scan_blank_line(self.bytes, index) {
            Some(length) => {
                return index + length;
            },
            None => {},
        }
        if scan_indent(self.bytes, index) == 4 {
            return self.parse_indented_code_block(index, depth);
        }
        proof {
            lemma_line_content(text, index as int);
            lemma_run_end(text, ByteClass::Space, index as int);
            lemma_run_end_from_inside(
                text,
                ByteClass::Space,
                index as int,
                run_end(text, ByteClass::Space, index as int),
            );
        }
        let start = parse_spaces(self.bytes, index);
        proof {
            lemma_thematic_break_len(text, start as int);
        }
        match scan_thematic_break(self.bytes, start) {
            Some(length) => {
                return self.parse_thematic_break(start, length);
            },
            None => {},
        }
        match scan_atx_heading(self.bytes, start) {
            Some(level) => {
                return self.parse_atx_heading(start, level);
            },
            None => {},
        }
        match scan_opening_code_fence(self.bytes, start) {
            Some((count, byte)) => {
                return self.parse_fenced_code_block(index, start, count, byte, depth);
            },
            None => {},
        }
        match scan_html_block_type_1_to_5(self.bytes, start) {
            Some(end) => {
                return self.parse_html_block_until_marker(index, end, depth);
            },
            None => {},
        }
        if scan_html_block_type_6(self.bytes, start) || scan_html_block_type_7(self.bytes, start) {
            return self.parse_html_block_until_blank(index, depth);
        }
        self.parse_setext_heading_or_paragraph(start, depth)
    }

    /// Closes open block quotes until only `keep` of them are open; they
    /// end with the byte `end`.
    pub fn close_quotes(&mut self, keep: usize, end: usize)
        requires
            old(self).inv(),
            old(self).in_quotes(),
            keep <= old(self).tree.ancestors@.len(),
        ensures
            final(self).inv(),
            final(self).same_text(old(self)),
            final(self).in_quotes(),
            final(self).tree.ancestors@.len() == keep,
            open_begins(final(self).tree@) == open_begins(old(self).tree@).take(keep as int),
            open_marks(final(self).tree@) == open_marks(old(self).tree@) + ends(
                open_begins(old(self).tree@),
                keep as int,
                end as int,
            ),
    {
        let ghost entry = self.tree@;
        let ghost depth = self.tree.ancestors@.len();
        proof {
            assert(open_begins(entry).take(depth as int) =~= open_begins(entry));
        }
        while self.tree.ancestors.len() > keep
            invariant
                self.inv(),
                self.same_text(old(self)),
                self.in_quotes(),
                keep <= self.tree.ancestors@.len() <= depth,
                depth == entry.ancestors.len(),
                open_begins(self.tree@) == open_begins(entry).take(
                    self.tree.ancestors@.len() as int,
                ),
                open_marks(self.tree@) + ends(open_begins(self.tree@), keep as int, end as int)
                    == open_marks(entry) + ends(open_begins(entry), keep as int, end as int),
            decreases self.tree.ancestors@.len(),
        {
            let ghost now = self.tree@;
            proof {
                let open = open_begins(now);
                lemma_ends_step(open, keep as int, end as int);
                assert(opened_at(now, now.ancestors.len() - 1).0 == BlockKind::<'a>::BlockQuote);
                let one = seq![
                    Mark::End { tag: TagView::BlockQuote, begin: open.last(), end: end as int },
                ];
                assert((open_marks(now) + one) + ends(open.drop_last(), keep as int, end as int)
                    =~= open_marks(now) + ends(open, keep as int, end as int));
            }
            self.close(end);
            proof {
                assert(open_begins(self.tree@) =~= open_begins(now).drop_last());
                assert(open_begins(now).drop_last() =~= open_begins(entry).take(
                    self.tree.ancestors@.len() as int,
                ));
            }
        }
        proof {
            let open = open_begins(self.tree@);
            assert(ends(open, keep as int, end as int) =~= Seq::<Mark>::empty());
            assert(open_marks(self.tree@) + ends(open, keep as int, end as int) =~= open_marks(
                self.tree@,
            ));
        }
    }

    /// Opens a block quote for each marker from `index` on, and returns the
    /// index after the last of them.
    pub fn open_quotes(&mut self, index: usize) -> (next: usize)
        requires
            old(self).inv(),
            old(self).in_quotes(),
            index <= old(self).bytes@.len(),
        ensures
            final(self).inv(),
            final(self).same_text(old(self)),
            final(self).in_quotes(),
            open_begins(final(self).tree@) == open_begins(old(self).tree@) + quote_openers(
                old(self).bytes@,
                index as int,
            ).0,
            next == quote_openers(old(self).bytes@, index as int).1,
            index <= next <= old(self).bytes@.len(),
            open_marks(final(self).tree@) == open_marks(old(self).tree@) + begins(
                quote_openers(old(self).bytes@, index as int).0.len() as int,
            ),
    {
        let ghost text = self.bytes@;
        let ghost entry = self.tree@;
        let mut inner: usize = index;
        let ghost mut opened: Seq<int> = Seq::empty();
        proof {
            lemma_len_fits(self.bytes);
            lemma_begins_step(0);
            assert(open_marks(entry) + begins(0) =~= open_marks(entry));
            assert(open_begins(entry) + opened =~= open_begins(entry));
            assert(opened + quote_openers(text, index as int).0 =~= quote_openers(
                text,
                index as int,
            ).0);
        }
        loop
            invariant
                self.inv(),
                self.same_text(old(self)),
                text == self.bytes@,
                text.len() <= usize::MAX,
                self.in_quotes(),
                open_begins(self.tree@) == open_begins(entry) + opened,
                index <= inner <= text.len(),
                quote_openers(text, index as int).0 == opened + quote_openers(
                    text,
                    inner as int,
                ).0,
                quote_openers(text, index as int).1 == quote_openers(text, inner as int).1,
                open_marks(self.tree@) == open_marks(entry) + begins(opened.len() as int),
            ensures
                self.inv(),
                self.same_text(old(self)),
                self.in_quotes(),
                open_begins(self.tree@) == open_begins(entry) + opened,
                index <= inner <= text.len(),
                quote_openers(text, index as int) == (opened, inner as int),
                open_marks(self.tree@) == open_marks(entry) + begins(opened.len() as int),
            decreases text.len() - inner,
        {
            proof {
                lemma_block_quote_marker_len(text, inner as int);
            }
            match scan_block_quote_marker(self.bytes, inner) {
                Some(length) => {
                    let ghost now = self.tree@;
                    proof {
                        lemma_begins_step(opened.len() as int);
                        let b = begins(opened.len() as int);
                        let one = seq![Mark::Begin(TagView::BlockQuote)];
                        assert((open_marks(entry) + b) + one =~= open_marks(entry) + (b + one));
                        let rest = quote_openers(text, inner + length).0;
                        assert(opened + (seq![inner as int] + rest) =~= opened.push(inner as int)
                            + rest);
                    }
                    self.open(Block { begin: inner, end: 0, kind: BlockKind::BlockQuote });
                    proof {
                        assert(open_begins(self.tree@) =~= open_begins(now).push(inner as int));
                        assert(open_begins(now).push(inner as int) =~= open_begins(entry)
                            + opened.push(inner as int));
                        opened = opened.push(inner as int);
                    }
                    inner = inner + length;
                },
                None => {
                    proof {
                        assert(opened + Seq::<int>::empty() =~= opened);
                    }
                    break ;
                },
            }
        }
        inner
    }

    /// Takes the line that starts at `index` with what it closes, opens and
    /// starts, and returns the index after the block that it starts.
    pub fn parse_block(&mut self, index: usize) -> (next: usize)
        requires
            old(self).inv(),
            old(self).in_quotes(),
            index < old(self).bytes@.len(),
            old(self).tree.ancestors@.len() > 0 ==> index > 0,
        ensures
            final(self).inv(),
            final(self).same_text(old(self)),
            final(self).in_quotes(),
            index < next <= old(self).bytes@.len(),
            open_marks(final(self).tree@) + blocks(
                old(self).bytes@,
                next as int,
                open_begins(final(self).tree@),
            ) == open_marks(old(self).tree@) + blocks(
                old(self).bytes@,
                index as int,
                open_begins(old(self).tree@),
            ),
    {
        let ghost text = self.bytes@;
        let ghost entry = self.tree@;
        let depth = self.tree.ancestors.len();
        let (matched, content) = scan_container_markers(self.bytes, index, depth);
        proof {
            lemma_container_markers(text, index as int, depth as nat);
            lemma_quote_openers(text, content as int);
        }
        if depth > matched {
            self.close_quotes(matched, index - 1);
        } else {
            proof {
                let open = open_begins(entry);
                assert(ends(open, matched as int, index - 1) =~= Seq::<Mark>::empty());
                assert(open_marks(entry) + ends(open, matched as int, index - 1) =~= open_marks(
                    entry,
                ));
                assert(open.take(matched as int) =~= open);
            }
        }
        let inner = self.open_quotes(content);
        let inside = self.tree.ancestors.len();
        let ghost ready = self.tree@;
        let next = self.parse_leaf(inner, inside);
        proof {
            let open = open_begins(entry);
            let step = leaf(text, inner as int, inside as nat);
            let a = open_marks(entry);
            let e = ends(open, matched as int, index - 1);
            let b = begins(quote_openers(text, content as int).0.len() as int);
            let within = open.take(matched as int) + quote_openers(text, content as int).0;
            assert(open_begins(ready) == within);
            assert(open_begins(self.tree@) =~= open_begins(ready));
            let rest = blocks(text, next as int, within);
            assert(open_marks(ready) == (a + e) + b);
            assert(open_marks(self.tree@) == ((a + e) + b) + step.marks);
            assert((((a + e) + b) + step.marks) + rest =~= a + (e + b + step.marks + rest));
            assert forall|j: int| 0 <= j < self.tree.ancestors@.len() implies (#[trigger] opened_at(
                self.tree@,
                j,
            )).0 == BlockKind::<'a>::BlockQuote by {
                assert(opened_at(ready, j).0 == BlockKind::<'a>::BlockQuote);
            }
        }
        next
    }

    /// Reads the whole text, and returns the tree of its blocks with the
    /// cursor on the first of them.
    pub fn run(self) -> (tree: Tree<Block<'a>>)
        requires
            self.inv(),
            self.tree@ == TreeView::<Block<'a>>::empty(),
        ensures
            crate::frontier::links_ok(tree@.nodes),
            tree@.ancestors.len() == 0,
            tree@.current == if tree@.nodes.len() == 0 {
                None
            } else {
                Some(0usize)
            },
            tree_marks(tree@.nodes) == document(self.bytes@),
    {
        let ghost text = self.bytes@;
        let ghost start = self;
        let mut parser = self;
        let mut index: usize = 0;
        proof {
            lemma_len_fits(parser.bytes);
            crate::frontier::lemma_empty_frontier(parser.tree@);
            assert(open_begins(parser.tree@) =~= Seq::<int>::empty());
            assert(open_marks(parser.tree@) + blocks(text, 0, Seq::empty()) =~= document(text));
        }
        while index < parser.bytes.len()
            invariant
                parser.inv(),
                parser.same_text(&start),
                text == parser.bytes@,
                parser.in_quotes(),
                index <= text.len(),
                parser.tree.ancestors@.len() > 0 ==> index > 0,
                open_marks(parser.tree@) + blocks(text, index as int, open_begins(parser.tree@))
                    == document(text),
            decreases text.len() - index,
        {
            index = parser.parse_block(index);
        }
        let ghost entry = parser.tree@;
        if parser.tree.ancestors.len() > 0 {
            parser.close_quotes(0, index - 1);
        } else {
            proof {
                let open = open_begins(entry);
                assert(ends(open, 0, index - 1) =~= Seq::<Mark>::empty());
                assert(open_marks(entry) + ends(open, 0, index - 1) =~= open_marks(entry));
            }
        }
        let ghost built = parser.tree@;
        parser.tree.go_to_first();
        proof {
            crate::frontier::lemma_closed_tree(built);
        }
        parser.tree
    }
}

/// Finds where the title of an ATX heading ends, when it starts at `begin`
/// and its line ends at `end`.
pub fn scan_atx_title_end(text: &[u8], begin: usize, end: usize) -> (r: usize)
    requires
        begin <= end <= text@.len(),
    ensures
        r == atx_title_end(text@, begin as int, end as int),
        begin <= r <= end,
{
    let content = skip_run_back(text, ByteClass::SpaceOrTab, begin, end);
    let before_closing = skip_run_back(text, ByteClass::Exactly(0x23), begin, content);
    let trimmed = skip_run_back(text, ByteClass::SpaceOrTab, begin, before_closing);
    if before_closing <= begin {
        begin
    } else if trimmed != before_closing {
        trimmed
    } else {
        content
    }
}

/// Reads the text and returns the tree of its blocks, with the cursor on
/// the first of them. A walk over the tree leaves the marks of the document.
pub fn parse<'a>(text: &'a str) -> (tree: Tree<Block<'a>>)
    ensures
        crate::frontier::links_ok(tree@.nodes),
        tree@.ancestors.len() == 0,
        tree@.current == if tree@.nodes.len() == 0 {
            None
        } else {
            Some(0usize)
        },
        tree_marks(tree@.nodes) == document(text.spec_bytes()),
{
    Parser::new(text).run()
}

impl<'a> From<&'a str> for Tree<Block<'a>> {
    /// Converts the text into the tree of its blocks.
    fn from(text: &'a str) -> (tree: Self)
        ensures
            crate::frontier::links_ok(tree@.nodes),
            tree@.ancestors.len() == 0,
            tree@.current == if tree@.nodes.len() == 0 {
                None
            } else {
                Some(0usize)
            },
            tree_marks(tree@.nodes) == document(text.spec_bytes()),
    {
        parse(text)
    }
}

impl<'a> vstd::std_specs::convert::FromSpecImpl<&'a str> for Tree<Block<'a>> {
    /// The tree is not named as a value: what `from` returns is stated by
    /// what a walk over it leaves.
    open spec fn obeys_from_spec() -> bool {
        false
    }

    /// Some tree; nothing is said of it.
    open spec fn from_spec(text: &'a str) -> Self {
        arbitrary()
    }
}

} // verus!
