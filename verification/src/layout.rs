//! A fixed-capacity arena of UI layout nodes.
use vstd::prelude::*;

verus! {

pub const MAX_NODES: usize = 64;

pub type NodeId = u8;

/// The parent of a root node.
pub const NO_NODE: NodeId = 255;

/// A screen rectangle: left, top, width and height in pixels.
#[derive(Clone, Copy, Debug, Default, PartialEq, Eq, Structural)]
pub struct Rect {
    pub x: u16,
    pub y: u16,
    pub w: u16,
    pub h: u16,
}

impl Rect {
    pub fn new(x: u16, y: u16, w: u16, h: u16) -> (r: Self)
        ensures
            r == (Rect { x, y, w, h }),
    {
        Rect { x, y, w, h }
    }
}

#[derive(Clone, Copy, Debug, Default, PartialEq, Eq, Structural)]
pub enum NodeKind {
    #[default]
    Empty,
    Text,
    Rule,
    Progress,
}

/// A span of a text buffer.
#[derive(Clone, Copy, Debug, Default, PartialEq, Eq, Structural)]
pub struct TextSpan {
    pub offset: u16,
    pub len: u16,
}

/// Up to `N` (and at most 64) nodes, each with a kind, a rectangle, a parent and
/// a text span; the first `len` are in use.
pub struct Layout<const N: usize> {
    pub kinds: [NodeKind; N],
    pub rects: [Rect; N],
    pub parents: [NodeId; N],
    pub text: [TextSpan; N],
    pub len: u8,
}

/// Whether the node stored at `i` is the given one.
pub open spec fn node_is<const N: usize>(
    l: Layout<N>,
    i: int,
    kind: NodeKind,
    rect: Rect,
    parent: NodeId,
    text: TextSpan,
) -> bool {
    &&& l.kinds@[i] == kind
    &&& l.rects@[i] == rect
    &&& l.parents@[i] == parent
    &&& l.text@[i] == text
}

impl<const N: usize> Layout<N> {
    /// An empty arena; every slot holds an empty node with no parent.
    pub fn new() -> (r: Self)
        ensures
            r.len == 0,
            forall|i: int|
                0 <= i < N ==> node_is(
                    r,
                    i,
                    NodeKind::Empty,
                    Rect { x: 0, y: 0, w: 0, h: 0 },
                    NO_NODE,
                    TextSpan { offset: 0, len: 0 },
                ),
    {
        Self {
            kinds: [NodeKind::Empty; N],
            rects: [Rect { x: 0, y: 0, w: 0, h: 0 }; N],
            parents: [NO_NODE; N],
            text: [TextSpan { offset: 0, len: 0 }; N],
            len: 0,
        }
    }

    /// Appends a node and returns its id, or `None` when the arena is full
    /// (after `N` nodes, or after 64), leaving it unchanged.
    pub fn push(&mut self, kind: NodeKind, rect: Rect, parent: NodeId, text: TextSpan) -> (r: Option<
        NodeId,
    >)
        ensures
            old(self).len >= N || old(self).len >= MAX_NODES ==> r is None && final(self).len == old(
                self,
            ).len && final(self).kinds@ == old(self).kinds@ && final(self).rects@ == old(
                self,
            ).rects@ && final(self).parents@ == old(self).parents@ && final(self).text@ == old(
                self,
            ).text@,
            old(self).len < N && old(self).len < MAX_NODES ==> r == Some(old(self).len)
                && final(self).len == old(self).len + 1 && final(self).kinds@ == old(
                self,
            ).kinds@.update(old(self).len as int, kind) && final(self).rects@ == old(
                self,
            ).rects@.update(old(self).len as int, rect) && final(self).parents@ == old(
                self,
            ).parents@.update(old(self).len as int, parent) && final(self).text@ == old(
                self,
            ).text@.update(old(self).len as int, text),
    {
        let index: usize = self.len as usize;
        if index >= N || index >= MAX_NODES {
            return None;
        }
        self.kinds[index] = kind;
        self.rects[index] = rect;
        self.parents[index] = parent;
        self.text[index] = text;
        self.len = self.len + 1;
        Some(index as NodeId)
    }
}

impl<const N: usize> Default for Layout<N> {
    /// An empty arena, as `new` makes it.
    fn default() -> (r: Self)
        ensures
            r.len == 0,
            forall|i: int|
                0 <= i < N ==> node_is(
                    r,
                    i,
                    NodeKind::Empty,
                    Rect { x: 0, y: 0, w: 0, h: 0 },
                    NO_NODE,
                    TextSpan { offset: 0, len: 0 },
                ),
    {
        Self::new()
    }
}

/// What a push gives back can be read back: the returned id names a slot that
/// holds exactly the pushed node, and every other slot is unchanged.
pub proof fn lemma_push_read_back<const N: usize>(
    before: Layout<N>,
    after: Layout<N>,
    id: NodeId,
    kind: NodeKind,
    rect: Rect,
    parent: NodeId,
    text: TextSpan,
)
    requires
        id == before.len,
        before.kinds@.len() == N,
        before.rects@.len() == N,
        before.parents@.len() == N,
        before.text@.len() == N,
        before.len < N,
        after.len == before.len + 1,
        after.kinds@ == before.kinds@.update(id as int, kind),
        after.rects@ == before.rects@.update(id as int, rect),
        after.parents@ == before.parents@.update(id as int, parent),
        after.text@ == before.text@.update(id as int, text),
    ensures
        node_is(after, id as int, kind, rect, parent, text),
        forall|i: int|
            0 <= i < N && i != id ==> (after.kinds@[i] == before.kinds@[i] && after.rects@[i]
                == before.rects@[i] && after.parents@[i] == before.parents@[i] && after.text@[i]
                == before.text@[i]),
{
}

} // verus!
