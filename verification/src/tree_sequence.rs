//! A sequence of trees whose nodes carry `NodeLabel`s, kept in an
//! `indextree` arena, and a cursor that walks the top-level nodes in order.

use vstd::prelude::*;
use indextree::Arena;
use core::num::NonZeroUsize;
use crate::node_label::NodeLabel;

verus! {

#[verifier::external_type_specification]
#[verifier::external_body]
#[verifier::reject_recursive_types(T)]
pub struct ExArena<T>(Arena<T>);

/// The slots of an arena, in storage order: the data of each node and the
/// one-based index of its next sibling, if any.
pub uninterp spec fn arena_nodes(a: Arena<NodeLabel>) -> Seq<(NodeLabel, Option<usize>)>;

/// Some node of the arena has been removed (so that its slot may be reused).
pub uninterp spec fn arena_has_removed(a: Arena<NodeLabel>) -> bool;

/// Calls `Arena::new`: an arena with no nodes, none removed.
#[verifier::external_body]
fn arena_new() -> (a: Arena<NodeLabel>)
    ensures
        arena_nodes(a) == Seq::<(NodeLabel, Option<usize>)>::empty(),
        !arena_has_removed(a),
{
    Arena::new()
}

/// Calls `Arena::new_node` and returns the new node's one-based index.
///
/// When no node has been removed, `new_node` pushes a new slot at the end of
/// the arena's storage (its source takes a free slot only from the list of
/// removed ones), so the index is the new number of slots; the node is
/// detached, without next sibling.
#[verifier::external_body]
fn arena_new_node(a: &mut Arena<NodeLabel>, data: NodeLabel) -> (id: usize)
    requires
        !arena_has_removed(*old(a)),
        arena_nodes(*old(a)).len() + 1 < usize::MAX,
    ensures
        !arena_has_removed(*final(a)),
        id == arena_nodes(*old(a)).len() + 1,
        arena_nodes(*final(a)) == arena_nodes(*old(a)).push((data, None)),
{
    usize::from(a.new_node(data))
}

/// Calls `NodeId::insert_after_value` on the node with one-based index
/// `prev`, and returns the new node's one-based index.
///
/// The new node gets a new slot at the end (no node has been removed), comes
/// right after `prev` among its siblings, and takes over `prev`'s next
/// sibling; `prev`'s next sibling becomes the new node.
#[verifier::external_body]
fn arena_insert_after_value(a: &mut Arena<NodeLabel>, prev: usize, data: NodeLabel) -> (id: usize)
    requires
        !arena_has_removed(*old(a)),
        1 <= prev <= arena_nodes(*old(a)).len(),
        arena_nodes(*old(a)).len() + 1 < usize::MAX,
    ensures
        !arena_has_removed(*final(a)),
        id == arena_nodes(*old(a)).len() + 1,
        arena_nodes(*final(a)) == arena_nodes(*old(a)).update(
            prev - 1,
            (arena_nodes(*old(a))[prev - 1].0, Some(id)),
        ).push((data, arena_nodes(*old(a))[prev - 1].1)),
{
    let prev_id = a.get_node_id_at(NonZeroUsize::new(prev).unwrap()).unwrap();
    usize::from(prev_id.insert_after_value(data, a))
}

/// Calls `NodeId::next_sibling` on the node with one-based index `id`: the
/// one-based index of its next sibling, if any.
#[verifier::external_body]
fn arena_next_sibling(a: &Arena<NodeLabel>, id: usize) -> (r: Option<usize>)
    requires
        !arena_has_removed(*a),
        1 <= id <= arena_nodes(*a).len(),
    ensures
        r == arena_nodes(*a)[id - 1].1,
{
    let node_id = a.get_node_id_at(NonZeroUsize::new(id).unwrap()).unwrap();
    node_id.next_sibling(a).map(usize::from)
}

/// Calls `Arena::get_data` on the node with one-based index `id`: its data.
#[verifier::external_body]
fn arena_data(a: &Arena<NodeLabel>, id: usize) -> (r: &NodeLabel)
    requires
        !arena_has_removed(*a),
        1 <= id <= arena_nodes(*a).len(),
    ensures
        *r == arena_nodes(*a)[id - 1].0,
{
    let node_id = a.get_node_id_at(NonZeroUsize::new(id).unwrap()).unwrap();
    a.get_data(node_id).unwrap()
}

/// The slots hold one chain of siblings: node `k` (one-based) is followed by
/// node `k + 1`, and the last node by none.
pub open spec fn chained(nodes: Seq<(NodeLabel, Option<usize>)>) -> bool {
    &&& forall|i: int| 0 <= i < nodes.len() - 1 ==> #[trigger] nodes[i].1 == Some((i + 2) as usize)
    &&& nodes.len() > 0 ==> nodes[nodes.len() - 1].1 is None
}

/// The labels of the nodes, in storage order.
pub open spec fn labels(nodes: Seq<(NodeLabel, Option<usize>)>) -> Seq<NodeLabel> {
    nodes.map_values(|n: (NodeLabel, Option<usize>)| n.0)
}

/// A sequence of trees; for now every node that is pushed becomes a new
/// top-level tree after the last one.
pub struct TreeSequence {
    arena: Arena<NodeLabel>,
    last: Option<usize>,
}

impl View for TreeSequence {
    type V = Seq<NodeLabel>;

    /// The labels of the top-level nodes, in order.
    closed spec fn view(&self) -> Seq<NodeLabel> {
        labels(arena_nodes(self.arena))
    }
}

impl TreeSequence {
    /// The representation invariant.
    pub closed spec fn wf(&self) -> bool {
        let nodes = arena_nodes(self.arena);
        &&& !arena_has_removed(self.arena)
        &&& chained(nodes)
        &&& nodes.len() < usize::MAX
        &&& self.last == (if nodes.len() == 0 {
            None
        } else {
            Some(nodes.len() as usize)
        })
    }

    /// An empty sequence.
    pub fn new() -> (t: TreeSequence)
        ensures
            t.wf(),
            t@ == Seq::<NodeLabel>::empty(),
    {
        let t = TreeSequence { arena: arena_new(), last: None };
        proof {
            assert(t@ =~= Seq::<NodeLabel>::empty());
        }
        t
    }

    /// Number of top-level trees.
    pub closed spec fn len_spec(&self) -> nat {
        arena_nodes(self.arena).len()
    }

    /// Adds `label` as a new top-level node after the last one.
    pub fn push_back(&mut self, label: NodeLabel)
        requires
            old(self).wf(),
            old(self)@.len() + 2 < usize::MAX,
        ensures
            final(self).wf(),
            final(self)@ == old(self)@.push(label),
    {
        let ghost before = arena_nodes(self.arena);
        match self.last {
            None => {
                let id = arena_new_node(&mut self.arena, label);
                self.last = Some(id);
            },
            Some(prev) => {
                let id = arena_insert_after_value(&mut self.arena, prev, label);
                self.last = Some(id);
            },
        }
        proof {
            let after = arena_nodes(self.arena);
            assert forall|i: int| 0 <= i < after.len() - 1 implies #[trigger] after[i].1 == Some((i + 2) as usize) by {
                if i < before.len() - 1 {
                    assert(after[i] == before[i]);
                }
            }
            assert(labels(after) =~= labels(before).push(label)) by {
                assert forall|i: int| 0 <= i < after.len() implies #[trigger] labels(after)[i] == labels(before).push(label)[i] by {
                    if i < before.len() {
                        assert(after[i].0 == before[i].0);
                    }
                }
            }
        }
    }

    /// A cursor at the first top-level node (not valid when there is none).
    pub fn first(&self) -> (c: TreeCursor<'_>)
        requires
            self.wf(),
        ensures
            c.wf(),
            c.labels() == self@,
            c.pos() == (if self@.len() == 0 {
                None
            } else {
                Some(0nat)
            }),
    {
        let current = match self.last {
            None => None,
            Some(_) => Some(1),
        };
        TreeCursor { arena: &self.arena, current }
    }
}

/// A position among the top-level nodes of a `TreeSequence`, or past them.
pub struct TreeCursor<'a> {
    arena: &'a Arena<NodeLabel>,
    current: Option<usize>,
}

impl<'a> TreeCursor<'a> {
    /// The labels of the top-level nodes that the cursor walks.
    pub closed spec fn labels(&self) -> Seq<NodeLabel> {
        labels(arena_nodes(*self.arena))
    }

    /// The zero-based position of the node the cursor is at, if valid.
    pub closed spec fn pos(&self) -> Option<nat> {
        match self.current {
            Some(id) => Some((id - 1) as nat),
            None => None,
        }
    }

    /// The representation invariant.
    pub closed spec fn wf(&self) -> bool {
        let nodes = arena_nodes(*self.arena);
        &&& !arena_has_removed(*self.arena)
        &&& chained(nodes)
        &&& nodes.len() < usize::MAX
        &&& (self.current matches Some(id) ==> 1 <= id <= nodes.len())
    }

    /// Whether the cursor is at a node.
    pub fn is_valid(&self) -> (b: bool)
        ensures
            b == self.pos() is Some,
    {
        self.current.is_some()
    }

    /// The label of the node the cursor is at, if any.
    pub fn get(&self) -> (r: Option<&NodeLabel>)
        requires
            self.wf(),
        ensures
            r matches Some(l) ==> self.pos() is Some && *l == self.labels()[self.pos()->0 as int],
            r is None ==> self.pos() is None,
    {
        match self.current {
            None => None,
            Some(id) => Some(arena_data(self.arena, id)),
        }
    }

    /// Moves the cursor to the next top-level node; past the last one it is
    /// no longer valid. A cursor that is not valid stays so.
    pub fn next(&mut self)
        requires
            old(self).wf(),
        ensures
            final(self).wf(),
            final(self).labels() == old(self).labels(),
            final(self).pos() == (match old(self).pos() {
                Some(i) => if i + 1 < old(self).labels().len() {
                    Some((i + 1) as nat)
                } else {
                    None
                },
                None => None,
            }),
    {
        let cur = self.current;
        if let Some(id) = cur {
            let nxt = arena_next_sibling(self.arena, id);
            proof {
                let nodes = arena_nodes(*self.arena);
                let i = id - 1;
                if i < nodes.len() - 1 {
                    assert(nodes[i].1 == Some((i + 2) as usize));
                }
            }
            self.current = nxt;
        }
    }
}

} // verus!
