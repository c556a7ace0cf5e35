//! The arena that holds the block tree: nodes that are only ever added, a
//! cursor that names the current node, and the stack of its ancestors.
use vstd::prelude::*;

verus! {

/// A node of the tree: its first child, its next sibling, and what it holds.
#[derive(Clone, Copy, Debug)]
pub struct Node<T> {
    pub child: Option<usize>,
    pub next: Option<usize>,
    pub item: T,
}

/// A tree under construction or under a walk. `current` is the cursor;
/// `ancestors` is the chain from the root down to the cursor's parent.
#[derive(Debug)]
pub struct Tree<T> {
    pub ancestors: Vec<usize>,
    pub current: Option<usize>,
    pub nodes: Vec<Node<T>>,
}

/// A tree as a mathematical value.
pub struct TreeView<T> {
    pub nodes: Seq<Node<T>>,
    pub ancestors: Seq<usize>,
    pub current: Option<usize>,
}

impl<T> TreeView<T> {
    /// Whether the cursor and the ancestors name nodes that exist.
    pub open spec fn in_bounds(self) -> bool {
        &&& match self.current {
            Some(index) => index < self.nodes.len(),
            None => true,
        }
        &&& forall|k: int|
            0 <= k < self.ancestors.len() ==> #[trigger] self.ancestors[k] < self.nodes.len()
    }

    /// The tree with no node.
    pub open spec fn empty() -> Self {
        TreeView { nodes: Seq::empty(), ancestors: Seq::empty(), current: None }
    }

    /// The nodes after a new node with `item` is added at the cursor: as the
    /// next sibling of the current node if there is one, else as the first
    /// child of the last ancestor if there is one.
    pub open spec fn appended_nodes(self, item: T) -> Seq<Node<T>> {
        let fresh = Node { child: None, next: None, item };
        let index = self.nodes.len() as usize;
        match self.current {
            Some(current) => self.nodes.update(
                current as int,
                Node {
                    child: self.nodes[current as int].child,
                    next: Some(index),
                    item: self.nodes[current as int].item,
                },
            ).push(fresh),
            None => if self.ancestors.len() > 0 {
                let parent = self.ancestors.last() as int;
                self.nodes.update(
                    parent,
                    Node {
                        child: Some(index),
                        next: self.nodes[parent].next,
                        item: self.nodes[parent].item,
                    },
                ).push(fresh)
            } else {
                self.nodes.push(fresh)
            },
        }
    }

    /// The tree after `item` is added at the cursor, which moves to the new node.
    pub open spec fn append(self, item: T) -> Self {
        TreeView {
            nodes: self.appended_nodes(item),
            ancestors: self.ancestors,
            current: Some(self.nodes.len() as usize),
        }
    }

    /// The tree after the cursor moves to the next sibling of the current node.
    pub open spec fn go_to_next_sibling(self) -> Self {
        TreeView {
            nodes: self.nodes,
            ancestors: self.ancestors,
            current: self.nodes[self.current.unwrap() as int].next,
        }
    }

    /// The tree after the cursor moves up to the last ancestor, or to nowhere
    /// if there is none.
    pub open spec fn go_to_parent(self) -> Self {
        if self.ancestors.len() > 0 {
            TreeView {
                nodes: self.nodes,
                ancestors: self.ancestors.drop_last(),
                current: Some(self.ancestors.last()),
            }
        } else {
            TreeView { nodes: self.nodes, ancestors: self.ancestors, current: None }
        }
    }

    /// The tree after the cursor moves down to the first child of the current
    /// node, which becomes the last ancestor.
    pub open spec fn go_to_child(self) -> Self {
        TreeView {
            nodes: self.nodes,
            ancestors: self.ancestors.push(self.current.unwrap()),
            current: self.nodes[self.current.unwrap() as int].child,
        }
    }

    /// The tree after the cursor moves to the first node, if there is any.
    pub open spec fn go_to_first(self) -> Self {
        TreeView {
            nodes: self.nodes,
            ancestors: self.ancestors,
            current: if self.nodes.len() == 0 {
                None
            } else {
                Some(0)
            },
        }
    }
}

impl<T> View for Tree<T> {
    type V = TreeView<T>;

    open spec fn view(&self) -> TreeView<T> {
        TreeView { nodes: self.nodes@, ancestors: self.ancestors@, current: self.current }
    }
}

impl<T> Default for Tree<T> {
    fn default() -> (tree: Self)
        ensures
            tree@ == TreeView::<T>::empty(),
    {
        Tree { ancestors: Vec::new(), current: None, nodes: Vec::new() }
    }
}

impl<T> Tree<T> {
    /// Makes a tree with no node.
    pub fn new() -> (tree: Self)
        ensures
            tree@ == TreeView::<T>::empty(),
    {
        Tree { ancestors: Vec::new(), current: None, nodes: Vec::new() }
    }

    /// Adds a node with `item` at the cursor, and moves the cursor to it.
    pub fn append(&mut self, item: T)
        requires
            old(self)@.in_bounds(),
        ensures
            final(self)@ == old(self)@.append(item),
            final(self)@.in_bounds(),
            old(self)@.nodes.len() < usize::MAX,
    {
        let index = self.create_node(item);
        let next_current = Some(index);
        match self.current {
            Some(current) => {
                self.nodes[current].next = next_current;
            },
            None => {
                let depth = self.ancestors.len();
                if depth > 0 {
                    let parent = self.ancestors[depth - 1];
                    self.nodes[parent].child = next_current;
                }
            },
        }
        self.current = next_current;
        proof {
            assert(self.nodes@ =~= old(self)@.appended_nodes(item));
        }
    }

    /// Moves the cursor to the next sibling of the current node.
    pub fn go_to_next_sibling(&mut self)
        requires
            old(self).current.is_some(),
            old(self).current.unwrap() < old(self).nodes@.len(),
        ensures
            final(self)@ == old(self)@.go_to_next_sibling(),
    {
        let index = self.current.unwrap();
        self.current = self.nodes[index].next;
    }

    /// Moves the cursor up to the last ancestor, which leaves the stack.
    pub fn go_to_parent(&mut self)
        ensures
            final(self)@ == old(self)@.go_to_parent(),
    {
        self.current = self.ancestors.pop();
    }

    /// Moves the cursor down to the first child of the current node.
    pub fn go_to_child(&mut self)
        requires
            old(self).current.is_some(),
            old(self).current.unwrap() < old(self).nodes@.len(),
        ensures
            final(self)@ == old(self)@.go_to_child(),
    {
        let index = self.current.unwrap();
        self.ancestors.push(index);
        self.current = self.nodes[index].child;
    }

    /// Moves the cursor to the first node of the tree.
    pub fn go_to_first(&mut self)
        ensures
            final(self)@ == old(self)@.go_to_first(),
    {
        self.current = if self.nodes.len() == 0 {
            None
        } else {
            Some(0)
        };
    }

    /// Adds a node with `item` that nothing links to yet, and returns its index.
    fn create_node(&mut self, item: T) -> (index: usize)
        ensures
            index == old(self).nodes@.len(),
            index < usize::MAX,
            final(self).nodes@ == old(self).nodes@.push(Node { child: None, next: None, item }),
            final(self).ancestors == old(self).ancestors,
            final(self).current == old(self).current,
    {
        let index = self.nodes.len();
        self.nodes.push(Node { child: None, item, next: None });
        assert(self.nodes@.len() == self.nodes.len());
        index
    }
}

} // verus!
