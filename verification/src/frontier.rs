//! The block tree while it is built. Nodes are added in pre-order at the
//! cursor, so the open blocks and the cursor are the last of their levels.
//! This module says what holds of such a tree, which marks it has left so
//! far, and how each step of the construction changes them.
use crate::marks::{end_mark, item_marks, leaf_mark, link, marks_in, same_marks, Mark};
use crate::tree::{Node, TreeView};
use crate::types::block::{Block, BlockKind};
use vstd::prelude::*;

verus! {

/// Whether the links of the node lead below `hi`.
pub open spec fn below(node: Node<Block>, hi: int) -> bool {
    &&& match node.child {
        Some(child) => child < hi,
        None => true,
    }
    &&& match node.next {
        Some(next) => next < hi,
        None => true,
    }
}

/// Whether the links of the node lead to `hi` at most.
pub open spec fn at_most(node: Node<Block>, hi: int) -> bool {
    &&& match node.child {
        Some(child) => child <= hi,
        None => true,
    }
    &&& match node.next {
        Some(next) => next <= hi,
        None => true,
    }
}

/// Whether no link of the nodes from `lo` up to `hi` leads to `hi` or beyond.
pub open spec fn confined(nodes: Seq<Node<Block>>, lo: int, hi: int) -> bool {
    forall|x: int| lo <= x < hi ==> #[trigger] below(nodes[x], hi)
}

/// Whether no link of the nodes before `hi` leads beyond `hi`.
pub open spec fn upto(nodes: Seq<Node<Block>>, hi: int) -> bool {
    forall|x: int| 0 <= x < hi ==> #[trigger] at_most(nodes[x], hi)
}

/// Whether the links of node `n` are those of a tree laid out in pre-order:
/// its first child is the node after it, its next sibling comes later, and
/// what lies between the node and its next sibling stays there.
pub open spec fn node_ok(nodes: Seq<Node<Block>>, n: int) -> bool {
    &&& match nodes[n].child {
        Some(child) => child == n + 1 && child < nodes.len(),
        None => true,
    }
    &&& match nodes[n].next {
        Some(next) => n < next < nodes.len() && confined(nodes, n + 1, next as int) && (
        nodes[n].child.is_some() ==> n + 1 < next),
        None => true,
    }
}

/// Whether the links of all nodes are those of a tree laid out in pre-order.
pub open spec fn links_ok(nodes: Seq<Node<Block>>) -> bool {
    forall|n: int| 0 <= n < nodes.len() ==> #[trigger] node_ok(nodes, n)
}

/// Whether node `to` is `from` or one of the siblings after it.
pub open spec fn reaches(nodes: Seq<Node<Block>>, from: int, to: int) -> bool
    decreases to - from,
{
    if from == to {
        0 <= to < nodes.len()
    } else if 0 <= from < to < nodes.len() {
        match nodes[from].next {
            Some(next) => from < next <= to && reaches(nodes, next as int, to),
            None => false,
        }
    } else {
        false
    }
}

/// Whether two nodes have the same links and leave the same marks.
pub open spec fn alike(a: Node<Block>, b: Node<Block>) -> bool {
    a.child == b.child && a.next == b.next && same_marks(a.item, b.item)
}

/// Whether two arenas hold alike nodes from `lo` up to `hi`.
pub open spec fn agree(a: Seq<Node<Block>>, b: Seq<Node<Block>>, lo: int, hi: int) -> bool {
    &&& hi <= a.len()
    &&& hi <= b.len()
    &&& forall|x: int| lo <= x < hi ==> #[trigger] alike(a[x], b[x])
}

/// The first node of level `level`, where level 0 is the top and each
/// ancestor opens the next; the number of nodes if the level is empty.
pub open spec fn level_start(t: TreeView<Block>, level: int) -> int {
    if level <= 0 {
        0
    } else {
        link(
            t.nodes[t.ancestors[level - 1] as int].child,
            t.ancestors[level - 1] as int,
            t.nodes.len() as int,
        )
    }
}

/// What holds of the ancestor of level `level`: it is a container, the last
/// of its level, and nothing before it links beyond it.
pub open spec fn open_ok(t: TreeView<Block>, level: int) -> bool {
    let a = t.ancestors[level] as int;
    &&& 0 <= a < t.nodes.len()
    &&& t.nodes[a].item.kind.is_container()
    &&& t.nodes[a].next.is_none()
    &&& reaches(t.nodes, level_start(t, level), a)
    &&& upto(t.nodes, a)
}

/// What holds of the cursor: the current node is the last of the deepest
/// open level; without a current node that level is empty, and the last
/// ancestor, if any, is the last node.
pub open spec fn cursor_ok(t: TreeView<Block>) -> bool {
    match t.current {
        Some(c) => {
            &&& c < t.nodes.len()
            &&& t.nodes[c as int].next.is_none()
            &&& reaches(t.nodes, level_start(t, t.ancestors.len() as int), c as int)
            &&& upto(t.nodes, c as int)
        },
        None => if t.ancestors.len() == 0 {
            t.nodes.len() == 0
        } else {
            &&& t.ancestors.last() + 1 == t.nodes.len()
            &&& t.nodes[t.ancestors.last() as int].child.is_none()
        },
    }
}

/// What holds of a tree under construction.
#[verifier::opaque]
pub open spec fn frontier_ok(t: TreeView<Block>) -> bool {
    &&& links_ok(t.nodes)
    &&& forall|level: int| 0 <= level < t.ancestors.len() ==> #[trigger] open_ok(t, level)
    &&& cursor_ok(t)
}

/// The marks left before the level `level` was entered: for each ancestor
/// above it, the marks of the siblings before the ancestor and its `Begin`.
pub open spec fn spine_marks(t: TreeView<Block>, level: int) -> Seq<Mark>
    decreases level,
{
    if level <= 0 {
        Seq::empty()
    } else {
        let a = t.ancestors[level - 1] as int;
        spine_marks(t, level - 1) + marks_in(t.nodes, level_start(t, level - 1), a) + seq![
            Mark::Begin(t.nodes[a].item.kind.tag().unwrap()),
        ]
    }
}

/// The marks of the deepest open level.
pub open spec fn level_marks(t: TreeView<Block>) -> Seq<Mark> {
    marks_in(t.nodes, level_start(t, t.ancestors.len() as int), t.nodes.len() as int)
}

/// The marks that the tree has left so far: those of a walk over it, without
/// the `End` of the blocks that are still open.
pub open spec fn open_marks(t: TreeView<Block>) -> Seq<Mark> {
    spine_marks(t, t.ancestors.len() as int) + level_marks(t)
}

/// The marks of a walk depend only on the nodes it passes.
pub proof fn lemma_marks_frame(a: Seq<Node<Block>>, b: Seq<Node<Block>>, start: int, hi: int)
    requires
        agree(a, b, start, hi),
    ensures
        marks_in(a, start, hi) == marks_in(b, start, hi),
    decreases hi - start,
{
    if 0 <= start < hi {
        assert(alike(a[start], b[start]));
        lemma_marks_frame(a, b, link(a[start].child, start, hi), hi);
        lemma_marks_frame(a, b, link(a[start].next, start, hi), hi);
    }
}

/// A walk over nodes whose links stay below `hi` is the same below any
/// later bound.
pub proof fn lemma_marks_bound(nodes: Seq<Node<Block>>, start: int, hi: int, beyond: int)
    requires
        0 <= start < hi <= beyond <= nodes.len(),
        confined(nodes, start, hi),
    ensures
        marks_in(nodes, start, hi) == marks_in(nodes, start, beyond),
    decreases hi - start,
{
    assert(below(nodes[start], hi));
    let child = link(nodes[start].child, start, hi);
    let next = link(nodes[start].next, start, hi);
    if child < hi {
        lemma_marks_bound(nodes, child, hi, beyond);
        assert(link(nodes[start].child, start, beyond) == child);
    } else {
        assert(link(nodes[start].child, start, beyond) == beyond);
        assert(marks_in(nodes, hi, hi) =~= marks_in(nodes, beyond, beyond));
    }
    if next < hi {
        lemma_marks_bound(nodes, next, hi, beyond);
        assert(link(nodes[start].next, start, beyond) == next);
    } else {
        assert(link(nodes[start].next, start, beyond) == beyond);
        assert(marks_in(nodes, hi, hi) =~= marks_in(nodes, beyond, beyond));
    }
}

/// A node that is reached lies at or after the start, and exists.
pub proof fn lemma_reaches_order(nodes: Seq<Node<Block>>, from: int, to: int)
    requires
        reaches(nodes, from, to),
    ensures
        0 <= from <= to < nodes.len(),
{
}

/// Whether a node is reached depends only on the nodes before it.
pub proof fn lemma_reaches_frame(a: Seq<Node<Block>>, b: Seq<Node<Block>>, from: int, to: int)
    requires
        reaches(a, from, to),
        agree(a, b, from, to),
        to < b.len(),
    ensures
        reaches(b, from, to),
    decreases to - from,
{
    if from != to {
        assert(alike(a[from], b[from]));
        lemma_reaches_frame(a, b, a[from].next.unwrap() as int, to);
    }
}

/// What is reached reaches on by its own link.
pub proof fn lemma_reaches_extend(nodes: Seq<Node<Block>>, from: int, to: int, then: int)
    requires
        reaches(nodes, from, to),
        nodes[to].next.is_some(),
        nodes[to].next.unwrap() == then,
        to < then < nodes.len(),
    ensures
        reaches(nodes, from, then),
    decreases to - from,
{
    if from != to {
        lemma_reaches_extend(nodes, nodes[from].next.unwrap() as int, to, then);
    } else {
        assert(reaches(nodes, then, then));
    }
}

/// The walk from a node up to a later sibling, and on from there.
pub proof fn lemma_chain_split(nodes: Seq<Node<Block>>, from: int, to: int, hi: int)
    requires
        links_ok(nodes),
        reaches(nodes, from, to),
        to < hi <= nodes.len(),
    ensures
        marks_in(nodes, from, hi) == marks_in(nodes, from, to) + marks_in(nodes, to, hi),
    decreases to - from,
{
    if from == to {
        assert(marks_in(nodes, from, to) =~= Seq::<Mark>::empty());
        assert(marks_in(nodes, from, hi) =~= marks_in(nodes, from, to) + marks_in(nodes, to, hi));
    } else {
        assert(node_ok(nodes, from));
        let next = nodes[from].next.unwrap() as int;
        lemma_chain_split(nodes, next, to, hi);
        if nodes[from].child.is_some() {
            lemma_marks_bound(nodes, from + 1, next, hi);
            lemma_marks_bound(nodes, from + 1, next, to);
        }
        let inner = marks_in(nodes, link(nodes[from].child, from, hi), hi);
        assert(inner == marks_in(nodes, link(nodes[from].child, from, to), to));
        assert(marks_in(nodes, link(nodes[from].next, from, to), to) == marks_in(nodes, next, to));
        assert(marks_in(nodes, from, hi) =~= marks_in(nodes, from, to) + marks_in(nodes, to, hi));
    }
}

/// The links stay those of a tree in pre-order when a node loses a link or
/// changes what it holds.
pub proof fn lemma_links_ok_unlink<'a>(
    nodes: Seq<Node<Block<'a>>>,
    index: int,
    node: Node<Block<'a>>,
)
    requires
        links_ok(nodes),
        0 <= index < nodes.len(),
        node.child == nodes[index].child || node.child.is_none(),
        node.next == nodes[index].next || node.next.is_none(),
    ensures
        links_ok(nodes.update(index, node)),
{
    let after = nodes.update(index, node);
    assert forall|n: int| 0 <= n < after.len() implies #[trigger] node_ok(after, n) by {
        assert(node_ok(nodes, n));
        if after[n].next.is_some() {
            let next = after[n].next.unwrap() as int;
            assert forall|x: int| n + 1 <= x < next implies #[trigger] below(after[x], next) by {
                assert(below(nodes[x], next));
            }
        }
    }
}

/// The marks left before a level depend only on the nodes before its
/// ancestor, and on the tag of that ancestor.
pub proof fn lemma_spine_frame<'a>(t: TreeView<Block<'a>>, u: TreeView<Block<'a>>, level: int)
    requires
        0 <= level <= t.ancestors.len(),
        level <= u.ancestors.len(),
        forall|j: int| 0 <= j < level ==> t.ancestors[j] == u.ancestors[j],
        forall|j: int| 0 <= j < level ==> #[trigger] open_ok(t, j),
        level > 0 ==> agree(t.nodes, u.nodes, 0, t.ancestors[level - 1] as int),
        level > 0 ==> t.ancestors[level - 1] < u.nodes.len(),
        level > 0 ==> t.nodes[t.ancestors[level - 1] as int].item.kind.tag()
            == u.nodes[t.ancestors[level - 1] as int].item.kind.tag(),
    ensures
        spine_marks(u, level) == spine_marks(t, level),
        forall|j: int| 0 <= j < level ==> #[trigger] level_start(u, j) == level_start(t, j),
    decreases level,
{
    if level > 0 {
        let a = t.ancestors[level - 1] as int;
        assert(open_ok(t, level - 1));
        lemma_reaches_order(t.nodes, level_start(t, level - 1), a);
        if level > 1 {
            let above = t.ancestors[level - 2] as int;
            assert(open_ok(t, level - 2));
            assert(above < a);
            assert(alike(t.nodes[above], u.nodes[above]));
            assert forall|x: int| 0 <= x < above implies #[trigger] alike(
                t.nodes[x],
                u.nodes[x],
            ) by {}
        }
        lemma_spine_frame(t, u, level - 1);
        assert(level_start(u, level - 1) == level_start(t, level - 1));
        assert forall|x: int| level_start(t, level - 1) <= x < a implies #[trigger] alike(
            t.nodes[x],
            u.nodes[x],
        ) by {}
        lemma_marks_frame(t.nodes, u.nodes, level_start(t, level - 1), a);
    }
}

/// The marks of the deepest open level are those of the siblings before the
/// current node, and then those of the current node with its children.
pub proof fn lemma_level_split(t: TreeView<Block>)
    requires
        frontier_ok(t),
        t.current.is_some(),
    ensures
        level_marks(t) == marks_in(
            t.nodes,
            level_start(t, t.ancestors.len() as int),
            t.current.unwrap() as int,
        ) + item_marks(
            t.nodes[t.current.unwrap() as int].item,
            marks_in(
                t.nodes,
                link(
                    t.nodes[t.current.unwrap() as int].child,
                    t.current.unwrap() as int,
                    t.nodes.len() as int,
                ),
                t.nodes.len() as int,
            ),
        ),
{
    reveal(frontier_ok);
    let c = t.current.unwrap() as int;
    let hi = t.nodes.len() as int;
    lemma_chain_split(t.nodes, level_start(t, t.ancestors.len() as int), c, hi);
    assert(marks_in(t.nodes, link(t.nodes[c].next, c, hi), hi) =~= Seq::<Mark>::empty());
    assert(marks_in(t.nodes, c, hi) =~= item_marks(
        t.nodes[c].item,
        marks_in(t.nodes, link(t.nodes[c].child, c, hi), hi),
    ));
}

/// The node with another item in it.
pub open spec fn with_item<'a>(node: Node<Block<'a>>, item: Block<'a>) -> Node<Block<'a>> {
    Node { child: node.child, next: node.next, item }
}

/// The tree with another item in the node `index`.
pub open spec fn set_item<'a>(t: TreeView<Block<'a>>, index: int, item: Block<'a>) -> TreeView<
    Block<'a>,
> {
    TreeView {
        nodes: t.nodes.update(index, with_item(t.nodes[index], item)),
        ancestors: t.ancestors,
        current: t.current,
    }
}

/// The marks of the siblings before the current node.
pub open spec fn before_cursor(t: TreeView<Block>) -> Seq<Mark> {
    marks_in(t.nodes, level_start(t, t.ancestors.len() as int), t.current.unwrap() as int)
}

/// The marks left before the last ancestor was opened.
pub open spec fn spine_head(t: TreeView<Block>) -> Seq<Mark> {
    spine_marks(t, t.ancestors.len() - 1) + marks_in(
        t.nodes,
        level_start(t, t.ancestors.len() - 1),
        t.ancestors.last() as int,
    )
}

/// The tag of the last ancestor.
pub open spec fn open_tag(t: TreeView<Block>) -> crate::types::tag::TagView {
    t.nodes[t.ancestors.last() as int].item.kind.tag().unwrap()
}

/// The block with another last byte.
pub open spec fn with_end<'a>(item: Block<'a>, end: usize) -> Block<'a> {
    Block { begin: item.begin, end, kind: item.kind }
}

/// The tree after the last ancestor has been closed, with `end` as its last byte.
pub open spec fn close_with<'a>(t: TreeView<Block<'a>>, end: usize) -> TreeView<Block<'a>> {
    let a = t.ancestors.last() as int;
    TreeView {
        nodes: t.nodes.update(a, with_item(t.nodes[a], with_end(t.nodes[a].item, end))),
        ancestors: t.ancestors.drop_last(),
        current: Some(t.ancestors.last()),
    }
}

/// The tree after the last ancestor has lost its children and been closed,
/// with `end` as its last byte.
pub open spec fn detach_close<'a>(t: TreeView<Block<'a>>, end: usize) -> TreeView<Block<'a>> {
    let a = t.ancestors.last() as int;
    TreeView {
        nodes: t.nodes.update(
            a,
            Node { child: None, next: t.nodes[a].next, item: with_end(t.nodes[a].item, end) },
        ),
        ancestors: t.ancestors.drop_last(),
        current: Some(t.ancestors.last()),
    }
}

/// The tree after the siblings that follow node `index` are cut off, and the
/// cursor is set back to that node.
pub open spec fn truncate<'a>(t: TreeView<Block<'a>>, index: int) -> TreeView<Block<'a>> {
    TreeView {
        nodes: t.nodes.update(
            index,
            Node { child: t.nodes[index].child, next: None, item: t.nodes[index].item },
        ),
        ancestors: t.ancestors,
        current: Some(index as usize),
    }
}

/// Each ancestor lies after the one above it.
pub proof fn lemma_ancestors_ordered(t: TreeView<Block>, i: int, j: int)
    requires
        forall|level: int| 0 <= level < t.ancestors.len() ==> #[trigger] open_ok(t, level),
        0 <= i <= j < t.ancestors.len(),
    ensures
        t.ancestors[i] <= t.ancestors[j],
        i < j ==> t.ancestors[i] < t.ancestors[j],
        t.ancestors[j] < level_start(t, j + 1) || level_start(t, j + 1) == t.nodes.len(),
    decreases j - i,
{
    assert(open_ok(t, j));
    if i < j {
        lemma_reaches_order(t.nodes, level_start(t, j), t.ancestors[j] as int);
        lemma_ancestors_ordered(t, i, j - 1);
    }
}

/// Adding a node at the cursor keeps the tree in order, leaves the marks of
/// the levels above as they are, and adds the marks of the new node to
/// those of the deepest open level.
pub proof fn lemma_append<'a>(t: TreeView<Block<'a>>, item: Block<'a>)
    requires
        frontier_ok(t),
        t.nodes.len() < usize::MAX,
    ensures
        frontier_ok(t.append(item)),
        spine_marks(t.append(item), t.ancestors.len() as int) == spine_marks(
            t,
            t.ancestors.len() as int,
        ),
        level_marks(t.append(item)) == level_marks(t) + item_marks(item, Seq::empty()),
        t.current.is_some() ==> before_cursor(t.append(item)) == level_marks(t),
{
    reveal(frontier_ok);
    let u = t.append(item);
    let n = t.nodes.len() as int;
    let k = t.ancestors.len() as int;
    let changed: int = match t.current {
        Some(c) => c as int,
        None => if k > 0 {
            t.ancestors.last() as int
        } else {
            n
        },
    };
    assert(u.nodes.len() == n + 1);
    assert(u.nodes[n] == Node::<Block> { child: None, next: None, item });
    assert forall|x: int| 0 <= x < n && x != changed implies u.nodes[x] == t.nodes[x] by {}
    if k > 0 {
        assert(open_ok(t, k - 1));
        lemma_ancestors_ordered(t, k - 1, k - 1);
    }
    if t.current.is_some() {
        lemma_reaches_order(t.nodes, level_start(t, k), changed);
    }
    assert(changed < n ==> upto(t.nodes, changed));
    assert forall|j: int| 0 <= j < k implies t.ancestors[j] <= changed && (t.current.is_some()
        ==> t.ancestors[j] < changed) by {
        lemma_ancestors_ordered(t, j, k - 1);
    }
    assert(changed < n ==> alike(
        u.nodes[changed],
        Node {
            child: u.nodes[changed].child,
            next: u.nodes[changed].next,
            item: t.nodes[changed].item,
        },
    ));
    // The links of the new arena.
    assert forall|m: int| 0 <= m < n implies #[trigger] below(t.nodes[m], n) by {
        assert(node_ok(t.nodes, m));
    }
    assert forall|m: int| 0 <= m < u.nodes.len() implies #[trigger] node_ok(u.nodes, m) by {
        if m < n {
            assert(node_ok(t.nodes, m));
            if m == changed {
                if t.current.is_some() {
                    assert forall|x: int| m + 1 <= x < n implies #[trigger] below(
                        u.nodes[x],
                        n,
                    ) by {
                        assert(below(t.nodes[x], n));
                    }
                }
            } else if u.nodes[m].next.is_some() {
                let next = u.nodes[m].next.unwrap() as int;
                if m < changed && changed < n {
                    assert(at_most(t.nodes[m], changed));
                }
                assert forall|x: int| m + 1 <= x < next implies #[trigger] below(
                    u.nodes[x],
                    next,
                ) by {
                    assert(below(t.nodes[x], next));
                }
            }
        }
    }
    assert(links_ok(u.nodes));
    // The ancestors.
    lemma_spine_frame(t, u, k);
    assert forall|j: int| 0 <= j < k implies #[trigger] open_ok(u, j) by {
        let a = t.ancestors[j] as int;
        assert(open_ok(t, j));
        assert(level_start(u, j) == level_start(t, j));
        lemma_reaches_order(t.nodes, level_start(t, j), a);
        assert forall|x: int| level_start(t, j) <= x < a implies #[trigger] alike(
            t.nodes[x],
            u.nodes[x],
        ) by {}
        lemma_reaches_frame(t.nodes, u.nodes, level_start(t, j), a);
        assert forall|x: int| 0 <= x < a implies #[trigger] at_most(u.nodes[x], a) by {
            assert(at_most(t.nodes[x], a));
        }
    }
    // The cursor.
    assert forall|x: int| 0 <= x < n implies #[trigger] at_most(u.nodes[x], n) by {
        assert(below(t.nodes[x], n));
    }
    let start = level_start(t, k);
    match t.current {
        Some(c) => {
            let c = c as int;
            if k > 0 {
                assert(level_start(u, k) == start);
            }
            assert forall|x: int| start <= x < c implies #[trigger] alike(
                t.nodes[x],
                u.nodes[x],
            ) by {}
            lemma_reaches_frame(t.nodes, u.nodes, start, c);
            lemma_reaches_extend(u.nodes, start, c, n);
            // The marks of the level.
            lemma_level_split(t);
            lemma_chain_split(u.nodes, start, c, n + 1);
            lemma_marks_frame(t.nodes, u.nodes, start, c);
            lemma_chain_split(u.nodes, start, n, n + 1);
            assert(node_ok(u.nodes, c));
            assert(node_ok(t.nodes, c));
            if t.nodes[c].child.is_some() {
                lemma_marks_bound(u.nodes, c + 1, n, n + 1);
                assert forall|x: int| c + 1 <= x < n implies #[trigger] alike(
                    t.nodes[x],
                    u.nodes[x],
                ) by {}
                lemma_marks_frame(t.nodes, u.nodes, c + 1, n);
            }
            let inner_t = marks_in(t.nodes, link(t.nodes[c].child, c, n), n);
            let inner_u = marks_in(u.nodes, link(u.nodes[c].child, c, n + 1), n + 1);
            assert(inner_t == inner_u);
            assert(marks_in(u.nodes, n + 1, n + 1) =~= Seq::<Mark>::empty());
            assert(marks_in(u.nodes, n, n + 1) =~= item_marks(item, Seq::empty()));
            assert(marks_in(u.nodes, c, n + 1) =~= item_marks(t.nodes[c].item, inner_t)
                + item_marks(item, Seq::empty()));
            assert(level_marks(u) =~= level_marks(t) + item_marks(item, Seq::empty()));
            assert(marks_in(u.nodes, start, n) + marks_in(u.nodes, n, n + 1) == level_marks(u));
            assert(before_cursor(u) =~= level_marks(t)) by {
                let b = marks_in(u.nodes, start, n);
                let l = level_marks(t);
                let e = item_marks(item, Seq::empty());
                assert(b + e == l + e);
                assert(b.len() == l.len());
                assert forall|i: int| 0 <= i < b.len() implies b[i] == l[i] by {
                    assert((b + e)[i] == (l + e)[i]);
                }
            }
        },
        None => {
            assert(level_start(u, k) == n);
            assert(reaches(u.nodes, n, n));
            assert(level_marks(t) =~= Seq::<Mark>::empty());
            assert(marks_in(u.nodes, n + 1, n + 1) =~= Seq::<Mark>::empty());
            assert(marks_in(u.nodes, n, n + 1) =~= item_marks(item, Seq::empty()));
            assert(level_marks(u) =~= level_marks(t) + item_marks(item, Seq::empty()));
        },
    }
}

/// Entering a container that has just been added leaves it open: its `End`
/// is no longer among the marks left so far.
pub proof fn lemma_descend(t: TreeView<Block>)
    requires
        frontier_ok(t),
        t.current.is_some(),
        t.current.unwrap() + 1 == t.nodes.len(),
        t.nodes[t.current.unwrap() as int].child.is_none(),
        t.nodes[t.current.unwrap() as int].item.kind.is_container(),
    ensures
        frontier_ok(t.go_to_child()),
        level_marks(t.go_to_child()) == Seq::<Mark>::empty(),
        spine_marks(t.go_to_child(), t.ancestors.len() as int + 1) == spine_marks(
            t,
            t.ancestors.len() as int,
        ) + before_cursor(t) + seq![
            Mark::Begin(t.nodes[t.current.unwrap() as int].item.kind.tag().unwrap()),
        ],
        level_marks(t) == before_cursor(t) + seq![
            Mark::Begin(t.nodes[t.current.unwrap() as int].item.kind.tag().unwrap()),
            end_mark(t.nodes[t.current.unwrap() as int].item),
        ],
{
    reveal(frontier_ok);
    let u = t.go_to_child();
    let k = t.ancestors.len() as int;
    let c = t.current.unwrap() as int;
    let n = t.nodes.len() as int;
    assert(u.ancestors.last() == t.current.unwrap());
    assert forall|j: int| 0 <= j < k implies u.ancestors[j] == t.ancestors[j] by {}
    lemma_spine_frame(t, u, k);
    assert forall|j: int| 0 <= j < u.ancestors.len() implies #[trigger] open_ok(u, j) by {
        if j < k {
            assert(open_ok(t, j));
            assert(level_start(u, j) == level_start(t, j));
        } else {
            assert(level_start(u, k) == level_start(t, k));
        }
    }
    lemma_level_split(t);
    assert(marks_in(t.nodes, n, n) =~= Seq::<Mark>::empty());
    assert(level_marks(t) =~= before_cursor(t) + seq![
        Mark::Begin(t.nodes[c].item.kind.tag().unwrap()),
        end_mark(t.nodes[c].item),
    ]);
    assert(level_start(u, k + 1) == n);
    assert(level_marks(u) =~= Seq::<Mark>::empty());
    assert(level_start(u, k) == level_start(t, k));
}

/// Adding a container at the cursor and entering it leaves its `Begin`
/// after the marks left so far, and an empty level to fill.
pub proof fn lemma_open<'a>(t: TreeView<Block<'a>>, item: Block<'a>)
    requires
        frontier_ok(t),
        t.nodes.len() < usize::MAX,
        item.kind.is_container(),
    ensures
        frontier_ok(t.append(item).go_to_child()),
        level_marks(t.append(item).go_to_child()) == Seq::<Mark>::empty(),
        spine_marks(t.append(item).go_to_child(), t.ancestors.len() as int + 1) == open_marks(t)
            + seq![Mark::Begin(item.kind.tag().unwrap())],
        spine_head(t.append(item).go_to_child()) == open_marks(t),
        open_tag(t.append(item).go_to_child()) == item.kind.tag().unwrap(),
{
    reveal(frontier_ok);
    let v = t.append(item);
    let u = v.go_to_child();
    let k = t.ancestors.len() as int;
    let tag = item.kind.tag().unwrap();
    lemma_append(t, item);
    lemma_descend(v);
    let begin = seq![Mark::Begin(tag)];
    let both = seq![Mark::Begin(tag), end_mark(item)];
    assert(item_marks(item, Seq::empty()) =~= both);
    assert(level_marks(v) == level_marks(t) + both);
    assert(level_marks(v) == before_cursor(v) + both);
    assert(before_cursor(v) =~= level_marks(t)) by {
        let b = before_cursor(v);
        let l = level_marks(t);
        assert(b.len() == l.len());
        assert forall|i: int| 0 <= i < b.len() implies b[i] == l[i] by {
            assert((b + both)[i] == (l + both)[i]);
        }
    }
    assert(spine_marks(u, k + 1) =~= open_marks(t) + begin);
    assert(u.ancestors.last() == v.current.unwrap());
    assert(spine_marks(u, k + 1) == spine_head(u) + begin);
    assert(spine_head(u) =~= open_marks(t)) by {
        let h = spine_head(u);
        let o = open_marks(t);
        assert(h.len() == o.len());
        assert forall|i: int| 0 <= i < h.len() implies h[i] == o[i] by {
            assert((h + begin)[i] == (o + begin)[i]);
        }
    }
}

/// What closing the last ancestor, with or without its children, leaves
/// as it was: the links of the arena, the ancestors above, and the marks
/// before the ancestor.
proof fn lemma_closing_frame<'a>(t: TreeView<Block<'a>>, u: TreeView<Block<'a>>)
    requires
        frontier_ok(t),
        t.ancestors.len() > 0,
        u.ancestors == t.ancestors.drop_last(),
        u.current == Some(t.ancestors.last()),
        u.nodes.len() == t.nodes.len(),
        forall|x: int|
            0 <= x < t.nodes.len() && x != t.ancestors.last() ==> u.nodes[x] == t.nodes[x],
        u.nodes[t.ancestors.last() as int].next == t.nodes[t.ancestors.last() as int].next,
        u.nodes[t.ancestors.last() as int].child == t.nodes[t.ancestors.last() as int].child
            || u.nodes[t.ancestors.last() as int].child.is_none(),
        u.nodes[t.ancestors.last() as int].item.kind == t.nodes[t.ancestors.last()
            as int].item.kind,
    ensures
        frontier_ok(u),
        spine_marks(u, t.ancestors.len() - 1) + before_cursor(u) == spine_head(t),
        kinds_kept(t, u, t.ancestors.len() - 1),
        u.nodes[t.ancestors.last() as int].child == t.nodes[t.ancestors.last() as int].child
            ==> marks_in(
            u.nodes,
            link(
                u.nodes[t.ancestors.last() as int].child,
                t.ancestors.last() as int,
                t.nodes.len() as int,
            ),
            t.nodes.len() as int,
        ) == level_marks(t),
{
    reveal(frontier_ok);
    let k = t.ancestors.len() as int;
    let a = t.ancestors.last() as int;
    let n = t.nodes.len() as int;
    assert(open_ok(t, k - 1));
    lemma_links_ok_unlink(t.nodes, a, u.nodes[a]);
    assert(u.nodes =~= t.nodes.update(a, u.nodes[a]));
    assert forall|j: int| 0 <= j < k - 1 implies t.ancestors[j] < a by {
        lemma_ancestors_ordered(t, j, k - 1);
    }
    assert forall|j: int| 0 <= j < k - 1 implies u.ancestors[j] == t.ancestors[j] by {}
    assert forall|j: int| 0 <= j < k - 1 implies #[trigger] open_ok(t, j) by {}
    if k > 1 {
        assert(open_ok(t, k - 2));
        assert forall|x: int| 0 <= x < t.ancestors[k - 2] implies #[trigger] alike(
            t.nodes[x],
            u.nodes[x],
        ) by {}
    }
    lemma_spine_frame(t, u, k - 1);
    assert forall|j: int| 0 <= j < k implies level_start(u, j) == level_start(t, j) by {}
    assert forall|j: int| 0 <= j < k - 1 implies #[trigger] open_ok(u, j) by {
        let b = t.ancestors[j] as int;
        assert(open_ok(t, j));
        lemma_reaches_order(t.nodes, level_start(t, j), b);
        assert forall|x: int| level_start(t, j) <= x < b implies #[trigger] alike(
            t.nodes[x],
            u.nodes[x],
        ) by {}
        lemma_reaches_frame(t.nodes, u.nodes, level_start(t, j), b);
        assert forall|x: int| 0 <= x < b implies #[trigger] at_most(u.nodes[x], b) by {
            assert(at_most(t.nodes[x], b));
        }
    }
    let start = level_start(t, k - 1);
    lemma_reaches_order(t.nodes, start, a);
    assert forall|x: int| start <= x < a implies #[trigger] alike(t.nodes[x], u.nodes[x]) by {}
    lemma_reaches_frame(t.nodes, u.nodes, start, a);
    assert forall|x: int| 0 <= x < a implies #[trigger] at_most(u.nodes[x], a) by {
        assert(at_most(t.nodes[x], a));
    }
    assert(frontier_ok(u));
    lemma_marks_frame(t.nodes, u.nodes, start, a);
    assert forall|j: int| 0 <= j < k - 1 implies #[trigger] opened_at(u, j) == opened_at(t, j) by {
        assert(t.ancestors[j] < a);
    }
    lemma_ancestors_ordered(t, k - 1, k - 1);
    let below = level_start(t, k);
    assert forall|x: int| below <= x < n implies #[trigger] alike(t.nodes[x], u.nodes[x]) by {}
    lemma_marks_frame(t.nodes, u.nodes, below, n);
}

/// Closing the last ancestor leaves its `End` after the marks left so far.
pub proof fn lemma_close_with(t: TreeView<Block>, end: usize)
    requires
        frontier_ok(t),
        t.ancestors.len() > 0,
    ensures
        frontier_ok(close_with(t, end)),
        open_marks(close_with(t, end)) == open_marks(t) + seq![
            end_mark(with_end(t.nodes[t.ancestors.last() as int].item, end)),
        ],
        open_marks(t) == spine_head(t) + seq![Mark::Begin(open_tag(t))] + level_marks(t),
        kinds_kept(t, close_with(t, end), t.ancestors.len() - 1),
{
    let u = close_with(t, end);
    let a = t.ancestors.last() as int;
    lemma_last_ancestor_after(t);
    lemma_closing_frame(t, u);
    lemma_level_split(u);
    assert(level_start(u, u.ancestors.len() as int) == level_start(t, t.ancestors.len() - 1));
    assert(open_marks(t) =~= spine_head(t) + seq![Mark::Begin(open_tag(t))] + level_marks(t));
    assert(open_marks(u) =~= open_marks(t) + seq![end_mark(with_end(t.nodes[a].item, end))]);
}

/// Taking the children from the last ancestor and closing it leaves its
/// `End` right after its `Begin`.
pub proof fn lemma_detach_close(t: TreeView<Block>, end: usize)
    requires
        frontier_ok(t),
        t.ancestors.len() > 0,
    ensures
        frontier_ok(detach_close(t, end)),
        open_marks(detach_close(t, end)) == spine_head(t) + seq![
            Mark::Begin(open_tag(t)),
            end_mark(with_end(t.nodes[t.ancestors.last() as int].item, end)),
        ],
        kinds_kept(t, detach_close(t, end), t.ancestors.len() - 1),
{
    let u = detach_close(t, end);
    let a = t.ancestors.last() as int;
    let n = t.nodes.len() as int;
    lemma_last_ancestor_after(t);
    lemma_closing_frame(t, u);
    lemma_level_split(u);
    assert(marks_in(u.nodes, n, n) =~= Seq::<Mark>::empty());
    assert(level_start(u, u.ancestors.len() as int) == level_start(t, t.ancestors.len() - 1));
    assert(open_marks(u) =~= spine_head(t) + seq![
        Mark::Begin(open_tag(t)),
        end_mark(with_end(t.nodes[a].item, end)),
    ]);
}

/// Changing the span of the leaf under the cursor changes the last mark of
/// the level, and nothing else.
pub proof fn lemma_set_leaf<'a>(t: TreeView<Block<'a>>, item: Block<'a>)
    requires
        frontier_ok(t),
        t.current.is_some(),
        !t.nodes[t.current.unwrap() as int].item.kind.is_container(),
        !item.kind.is_container(),
    ensures
        frontier_ok(set_item(t, t.current.unwrap() as int, item)),
        spine_marks(set_item(t, t.current.unwrap() as int, item), t.ancestors.len() as int)
            == spine_marks(t, t.ancestors.len() as int),
        t.ancestors.len() > 0 ==> spine_head(set_item(t, t.current.unwrap() as int, item))
            == spine_head(t) && open_tag(set_item(t, t.current.unwrap() as int, item))
            == open_tag(t),
        before_cursor(set_item(t, t.current.unwrap() as int, item)) == before_cursor(t),
        level_marks(t) == before_cursor(t) + seq![
            leaf_mark(t.nodes[t.current.unwrap() as int].item),
        ],
        level_marks(set_item(t, t.current.unwrap() as int, item)) == before_cursor(t) + seq![
            leaf_mark(item),
        ],
{
    reveal(frontier_ok);
    let c = t.current.unwrap() as int;
    let u = set_item(t, c, item);
    // First to a tree with the same marks, by way of the old item.
    let same = set_item(t, c, t.nodes[c].item);
    assert(same.nodes =~= t.nodes);
    let k = t.ancestors.len() as int;
    let n = t.nodes.len() as int;
    assert forall|x: int| 0 <= x < n && x != c implies u.nodes[x] == t.nodes[x] by {}
    lemma_links_ok_unlink(t.nodes, c, with_item(t.nodes[c], item));
    lemma_reaches_order(t.nodes, level_start(t, k), c);
    assert forall|j: int| 0 <= j < k implies t.ancestors[j] < c by {
        lemma_ancestors_ordered(t, j, k - 1);
        lemma_ancestors_ordered(t, k - 1, k - 1);
    }
    if k > 0 {
        assert(open_ok(t, k - 1));
        assert forall|x: int| 0 <= x < t.ancestors[k - 1] implies #[trigger] alike(
            t.nodes[x],
            u.nodes[x],
        ) by {}
    }
    lemma_spine_frame(t, u, k);
    assert forall|j: int| 0 <= j <= k implies level_start(u, j) == level_start(t, j) by {}
    assert forall|j: int| 0 <= j < k implies #[trigger] open_ok(u, j) by {
        let a = t.ancestors[j] as int;
        assert(open_ok(t, j));
        lemma_reaches_order(t.nodes, level_start(t, j), a);
        assert forall|x: int| level_start(t, j) <= x < a implies #[trigger] alike(
            t.nodes[x],
            u.nodes[x],
        ) by {}
        lemma_reaches_frame(t.nodes, u.nodes, level_start(t, j), a);
        assert forall|x: int| 0 <= x < a implies #[trigger] at_most(u.nodes[x], a) by {
            assert(at_most(t.nodes[x], a));
        }
    }
    let start = level_start(t, k);
    assert forall|x: int| start <= x < c implies #[trigger] alike(t.nodes[x], u.nodes[x]) by {}
    lemma_reaches_frame(t.nodes, u.nodes, start, c);
    assert forall|x: int| 0 <= x < c implies #[trigger] at_most(u.nodes[x], c) by {
        assert(at_most(t.nodes[x], c));
    }
    assert(frontier_ok(u));
    lemma_marks_frame(t.nodes, u.nodes, start, c);
    lemma_level_split(t);
    lemma_level_split(u);
    if k > 0 {
        let a = t.ancestors[k - 1] as int;
        lemma_reaches_order(t.nodes, level_start(t, k - 1), a);
        assert forall|x: int| level_start(t, k - 1) <= x < a implies #[trigger] alike(
            t.nodes[x],
            u.nodes[x],
        ) by {}
        lemma_marks_frame(t.nodes, u.nodes, level_start(t, k - 1), a);
        lemma_spine_frame(t, u, k - 1);
    }
}

/// Changing the kind of the last ancestor changes its `Begin`, and nothing else.
pub proof fn lemma_retag<'a>(t: TreeView<Block<'a>>, item: Block<'a>)
    requires
        frontier_ok(t),
        t.ancestors.len() > 0,
        item.kind.is_container(),
    ensures
        frontier_ok(set_item(t, t.ancestors.last() as int, item)),
        spine_head(set_item(t, t.ancestors.last() as int, item)) == spine_head(t),
        open_tag(set_item(t, t.ancestors.last() as int, item)) == item.kind.tag().unwrap(),
        level_marks(set_item(t, t.ancestors.last() as int, item)) == level_marks(t),
        t.current.is_some() ==> before_cursor(set_item(t, t.ancestors.last() as int, item))
            == before_cursor(t),
{
    reveal(frontier_ok);
    let k = t.ancestors.len() as int;
    let a = t.ancestors.last() as int;
    let n = t.nodes.len() as int;
    let u = set_item(t, a, item);
    assert(open_ok(t, k - 1));
    assert forall|x: int| 0 <= x < n && x != a implies u.nodes[x] == t.nodes[x] by {}
    lemma_links_ok_unlink(t.nodes, a, with_item(t.nodes[a], item));
    assert forall|j: int| 0 <= j < k - 1 implies t.ancestors[j] < a by {
        lemma_ancestors_ordered(t, j, k - 1);
    }
    assert forall|j: int| 0 <= j < k - 1 implies #[trigger] open_ok(t, j) by {}
    if k > 1 {
        assert(open_ok(t, k - 2));
        assert forall|x: int| 0 <= x < t.ancestors[k - 2] implies #[trigger] alike(
            t.nodes[x],
            u.nodes[x],
        ) by {}
    }
    lemma_spine_frame(t, u, k - 1);
    assert forall|j: int| 0 <= j <= k implies level_start(u, j) == level_start(t, j) by {}
    assert forall|j: int| 0 <= j < k implies #[trigger] open_ok(u, j) by {
        let b = t.ancestors[j] as int;
        assert(open_ok(t, j));
        lemma_reaches_order(t.nodes, level_start(t, j), b);
        assert forall|x: int| level_start(t, j) <= x < b implies #[trigger] alike(
            t.nodes[x],
            u.nodes[x],
        ) by {}
        lemma_reaches_frame(t.nodes, u.nodes, level_start(t, j), b);
        assert forall|x: int| 0 <= x < b implies #[trigger] at_most(u.nodes[x], b) by {
            assert(at_most(t.nodes[x], b));
        }
    }
    let start = level_start(t, k);
    lemma_ancestors_ordered(t, k - 1, k - 1);
    if t.current.is_some() {
        let c = t.current.unwrap() as int;
        lemma_reaches_order(t.nodes, start, c);
        assert forall|x: int| start <= x < c implies #[trigger] alike(t.nodes[x], u.nodes[x]) by {}
        lemma_reaches_frame(t.nodes, u.nodes, start, c);
        assert forall|x: int| 0 <= x < c implies #[trigger] at_most(u.nodes[x], c) by {
            assert(at_most(t.nodes[x], c));
        }
        lemma_marks_frame(t.nodes, u.nodes, start, c);
    }
    assert forall|x: int| start <= x < n implies #[trigger] alike(t.nodes[x], u.nodes[x]) by {}
    lemma_marks_frame(t.nodes, u.nodes, start, n);
    lemma_reaches_order(t.nodes, level_start(t, k - 1), a);
    assert forall|x: int| level_start(t, k - 1) <= x < a implies #[trigger] alike(
        t.nodes[x],
        u.nodes[x],
    ) by {}
    lemma_marks_frame(t.nodes, u.nodes, level_start(t, k - 1), a);
}

/// A sibling of the deepest open level, and what came before it, stay as
/// they are when a node is added at the cursor.
pub proof fn lemma_append_keeps<'a>(t: TreeView<Block<'a>>, item: Block<'a>, index: int)
    requires
        frontier_ok(t),
        t.nodes.len() < usize::MAX,
        t.current.is_some(),
        index <= t.current.unwrap(),
        reaches(t.nodes, level_start(t, t.ancestors.len() as int), index),
        upto(t.nodes, index),
    ensures
        level_start(t.append(item), t.ancestors.len() as int) == level_start(
            t,
            t.ancestors.len() as int,
        ),
        reaches(t.append(item).nodes, level_start(t, t.ancestors.len() as int), index),
        upto(t.append(item).nodes, index),
        t.append(item).nodes[index].item == t.nodes[index].item,
        marks_in(t.append(item).nodes, level_start(t, t.ancestors.len() as int), index)
            == marks_in(t.nodes, level_start(t, t.ancestors.len() as int), index),
{
    reveal(frontier_ok);
    let u = t.append(item);
    let k = t.ancestors.len() as int;
    let c = t.current.unwrap() as int;
    let start = level_start(t, k);
    lemma_reaches_order(t.nodes, start, index);
    lemma_reaches_order(t.nodes, start, c);
    assert forall|x: int| 0 <= x < c implies u.nodes[x] == t.nodes[x] by {}
    if k > 0 {
        assert(open_ok(t, k - 1));
        lemma_ancestors_ordered(t, k - 1, k - 1);
    }
    assert forall|x: int| start <= x < index implies #[trigger] alike(t.nodes[x], u.nodes[x]) by {}
    lemma_reaches_frame(t.nodes, u.nodes, start, index);
    assert forall|x: int| 0 <= x < index implies #[trigger] at_most(u.nodes[x], index) by {
        assert(at_most(t.nodes[x], index));
    }
    lemma_marks_frame(t.nodes, u.nodes, start, index);
}

/// Cutting off the siblings after a leaf of the deepest open level leaves
/// the marks up to that leaf.
pub proof fn lemma_truncate(t: TreeView<Block>, index: int)
    requires
        frontier_ok(t),
        t.current.is_some(),
        index <= t.current.unwrap(),
        reaches(t.nodes, level_start(t, t.ancestors.len() as int), index),
        upto(t.nodes, index),
        !t.nodes[index].item.kind.is_container(),
    ensures
        frontier_ok(truncate(t, index)),
        spine_marks(truncate(t, index), t.ancestors.len() as int) == spine_marks(
            t,
            t.ancestors.len() as int,
        ),
        t.ancestors.len() > 0 ==> spine_head(truncate(t, index)) == spine_head(t) && open_tag(
            truncate(t, index),
        ) == open_tag(t),
        level_marks(truncate(t, index)) == marks_in(
            t.nodes,
            level_start(t, t.ancestors.len() as int),
            index,
        ) + seq![leaf_mark(t.nodes[index].item)],
{
    reveal(frontier_ok);
    let u = truncate(t, index);
    let k = t.ancestors.len() as int;
    let n = t.nodes.len() as int;
    let start = level_start(t, k);
    lemma_reaches_order(t.nodes, start, index);
    assert forall|x: int| 0 <= x < n && x != index implies u.nodes[x] == t.nodes[x] by {}
    lemma_links_ok_unlink(
        t.nodes,
        index,
        Node { child: t.nodes[index].child, next: None, item: t.nodes[index].item },
    );
    if k > 0 {
        assert(open_ok(t, k - 1));
        lemma_ancestors_ordered(t, k - 1, k - 1);
        assert forall|x: int| 0 <= x < t.ancestors[k - 1] implies #[trigger] alike(
            t.nodes[x],
            u.nodes[x],
        ) by {}
    }
    assert forall|j: int| 0 <= j < k implies t.ancestors[j] < index by {
        lemma_ancestors_ordered(t, j, k - 1);
    }
    lemma_spine_frame(t, u, k);
    assert forall|j: int| 0 <= j <= k implies level_start(u, j) == level_start(t, j) by {}
    assert forall|j: int| 0 <= j < k implies #[trigger] open_ok(u, j) by {
        let b = t.ancestors[j] as int;
        assert(open_ok(t, j));
        lemma_reaches_order(t.nodes, level_start(t, j), b);
        assert forall|x: int| level_start(t, j) <= x < b implies #[trigger] alike(
            t.nodes[x],
            u.nodes[x],
        ) by {}
        lemma_reaches_frame(t.nodes, u.nodes, level_start(t, j), b);
        assert forall|x: int| 0 <= x < b implies #[trigger] at_most(u.nodes[x], b) by {
            assert(at_most(t.nodes[x], b));
        }
    }
    assert forall|x: int| start <= x < index implies #[trigger] alike(t.nodes[x], u.nodes[x]) by {}
    lemma_reaches_frame(t.nodes, u.nodes, start, index);
    assert forall|x: int| 0 <= x < index implies #[trigger] at_most(u.nodes[x], index) by {
        assert(at_most(t.nodes[x], index));
    }
    assert(frontier_ok(u));
    lemma_marks_frame(t.nodes, u.nodes, start, index);
    lemma_level_split(u);
    if k > 0 {
        let a = t.ancestors[k - 1] as int;
        lemma_reaches_order(t.nodes, level_start(t, k - 1), a);
        assert forall|x: int| level_start(t, k - 1) <= x < a implies #[trigger] alike(
            t.nodes[x],
            u.nodes[x],
        ) by {}
        lemma_marks_frame(t.nodes, u.nodes, level_start(t, k - 1), a);
        lemma_spine_frame(t, u, k - 1);
    }
}

/// The kind of the ancestor of level `level`, and the byte with which it starts.
pub open spec fn opened_at<'a>(t: TreeView<Block<'a>>, level: int) -> (BlockKind<'a>, usize) {
    (t.nodes[t.ancestors[level] as int].item.kind, t.nodes[t.ancestors[level] as int].item.begin)
}

/// Whether the ancestors above `levels` are of the same kind, and start
/// with the same byte, in both trees.
pub open spec fn kinds_kept(t: TreeView<Block>, u: TreeView<Block>, levels: int) -> bool {
    forall|j: int| 0 <= j < levels ==> #[trigger] opened_at(u, j) == opened_at(t, j)
}

/// Whether two trees have the same open blocks, of the same kinds, and have
/// left the same marks before the deepest open level.
pub open spec fn same_context(t: TreeView<Block>, u: TreeView<Block>) -> bool {
    &&& u.ancestors == t.ancestors
    &&& spine_marks(u, t.ancestors.len() as int) == spine_marks(t, t.ancestors.len() as int)
    &&& t.ancestors.len() > 0 ==> spine_head(u) == spine_head(t) && open_tag(u) == open_tag(t)
    &&& kinds_kept(t, u, t.ancestors.len() as int)
}

/// The marks left before a level end with the `Begin` of its ancestor.
pub proof fn lemma_spine_parts(t: TreeView<Block>, u: TreeView<Block>)
    requires
        t.ancestors.len() > 0,
        u.ancestors.len() == t.ancestors.len(),
        spine_marks(u, t.ancestors.len() as int) == spine_marks(t, t.ancestors.len() as int),
    ensures
        spine_head(u) == spine_head(t),
        open_tag(u) == open_tag(t),
        spine_marks(t, t.ancestors.len() as int) == spine_head(t) + seq![Mark::Begin(open_tag(t))],
{
    let k = t.ancestors.len() as int;
    let hu = spine_head(u);
    let ht = spine_head(t);
    let bu = seq![Mark::Begin(open_tag(u))];
    let bt = seq![Mark::Begin(open_tag(t))];
    assert(spine_marks(u, k) == hu + bu);
    assert(spine_marks(t, k) == ht + bt);
    assert((hu + bu).len() == (ht + bt).len());
    assert((hu + bu)[hu.len() as int] == bu[0]);
    assert((ht + bt)[ht.len() as int] == bt[0]);
    assert(hu =~= ht) by {
        assert forall|i: int| 0 <= i < hu.len() implies hu[i] == ht[i] by {
            assert((hu + bu)[i] == (ht + bt)[i]);
        }
    }
}

/// The current node lies after all ancestors.
pub proof fn lemma_cursor_after_ancestors(t: TreeView<Block>)
    requires
        frontier_ok(t),
        t.current.is_some(),
    ensures
        forall|j: int|
            0 <= j < t.ancestors.len() ==> #[trigger] t.ancestors[j] < t.current.unwrap(),
{
    reveal(frontier_ok);
    let k = t.ancestors.len() as int;
    lemma_reaches_order(t.nodes, level_start(t, k), t.current.unwrap() as int);
    assert forall|j: int| 0 <= j < k implies #[trigger] t.ancestors[j] < t.current.unwrap() by {
        lemma_ancestors_ordered(t, j, k - 1);
        lemma_ancestors_ordered(t, k - 1, k - 1);
    }
}

/// Each ancestor lies before the last one.
pub proof fn lemma_last_ancestor_after(t: TreeView<Block>)
    requires
        frontier_ok(t),
        t.ancestors.len() > 0,
    ensures
        forall|j: int|
            0 <= j < t.ancestors.len() - 1 ==> #[trigger] t.ancestors[j] < t.ancestors.last(),
        t.ancestors.last() < t.nodes.len(),
        opened_at(t, t.ancestors.len() - 1).0.is_container(),
{
    reveal(frontier_ok);
    let k = t.ancestors.len() as int;
    assert(open_ok(t, k - 1));
    assert forall|j: int| 0 <= j < k - 1 implies #[trigger] t.ancestors[j] < t.ancestors.last() by {
        lemma_ancestors_ordered(t, j, k - 1);
    }
}

/// Adding a node at the cursor changes nothing above the deepest open level.
pub proof fn lemma_append_context<'a>(t: TreeView<Block<'a>>, item: Block<'a>)
    requires
        frontier_ok(t),
        t.nodes.len() < usize::MAX,
    ensures
        same_context(t, t.append(item)),
{
    reveal(frontier_ok);
    let u = t.append(item);
    let k = t.ancestors.len() as int;
    lemma_append(t, item);
    if k > 0 {
        lemma_spine_parts(t, u);
    }
    assert forall|j: int| 0 <= j < k implies #[trigger] opened_at(u, j) == opened_at(t, j) by {
        assert(open_ok(t, j));
    }
}

/// Adding a container at the cursor and entering it changes nothing above it.
pub proof fn lemma_open_context<'a>(t: TreeView<Block<'a>>, item: Block<'a>)
    requires
        frontier_ok(t),
        t.nodes.len() < usize::MAX,
        item.kind.is_container(),
    ensures
        kinds_kept(t, t.append(item).go_to_child(), t.ancestors.len() as int),
        opened_at(t.append(item).go_to_child(), t.ancestors.len() as int) == (
            item.kind,
            item.begin,
        ),
{
    reveal(frontier_ok);
    let u = t.append(item).go_to_child();
    let k = t.ancestors.len() as int;
    assert forall|j: int| 0 <= j < k implies #[trigger] opened_at(u, j) == opened_at(t, j) by {
        assert(open_ok(t, j));
    }
}

/// The cursor and the ancestors of a tree under construction name nodes that exist.
pub proof fn lemma_frontier_in_bounds(t: TreeView<Block>)
    requires
        frontier_ok(t),
    ensures
        t.in_bounds(),
{
    reveal(frontier_ok);
    assert forall|k: int| 0 <= k < t.ancestors.len() implies #[trigger] t.ancestors[k]
        < t.nodes.len() by {
        assert(open_ok(t, k));
    }
}

/// The tree with no node is a tree under construction.
pub proof fn lemma_empty_frontier(t: TreeView<Block>)
    requires
        t.nodes.len() == 0,
        t.ancestors.len() == 0,
        t.current.is_none(),
    ensures
        frontier_ok(t),
        open_marks(t) == Seq::<Mark>::empty(),
{
    reveal(frontier_ok);
    assert(open_marks(t) =~= Seq::<Mark>::empty());
}

/// The current node is the last of its level, and nothing before it links beyond it.
pub proof fn lemma_cursor_facts(t: TreeView<Block>)
    requires
        frontier_ok(t),
        t.current.is_some(),
    ensures
        t.current.unwrap() < t.nodes.len(),
        reaches(t.nodes, level_start(t, t.ancestors.len() as int), t.current.unwrap() as int),
        upto(t.nodes, t.current.unwrap() as int),
{
    reveal(frontier_ok);
}

/// With nothing open, the marks left so far are those of the whole tree.
pub proof fn lemma_closed_tree(t: TreeView<Block>)
    requires
        frontier_ok(t),
        t.ancestors.len() == 0,
    ensures
        links_ok(t.nodes),
        open_marks(t) == crate::marks::tree_marks(t.nodes),
{
    reveal(frontier_ok);
    assert(open_marks(t) =~= crate::marks::tree_marks(t.nodes));
}

/// The nodes of the deepest open level lie after all ancestors.
pub proof fn lemma_level_after_ancestors(t: TreeView<Block>, index: int)
    requires
        frontier_ok(t),
        reaches(t.nodes, level_start(t, t.ancestors.len() as int), index),
    ensures
        forall|j: int| 0 <= j < t.ancestors.len() ==> #[trigger] t.ancestors[j] < index,
        0 <= index < t.nodes.len(),
{
    reveal(frontier_ok);
    let k = t.ancestors.len() as int;
    lemma_reaches_order(t.nodes, level_start(t, k), index);
    assert forall|j: int| 0 <= j < k implies #[trigger] t.ancestors[j] < index by {
        lemma_ancestors_ordered(t, j, k - 1);
        lemma_ancestors_ordered(t, k - 1, k - 1);
    }
}

/// The bytes with which the open blocks start, from the outermost on.
pub open spec fn open_begins(t: TreeView<Block>) -> Seq<int> {
    Seq::new(t.ancestors.len(), |j: int| opened_at(t, j).1 as int)
}

} // verus!
