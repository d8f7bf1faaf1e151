//! The mathematical model of the block tree.
//!
//! `NodeM` mirrors the executable tree with `Seq<char>` text and `Seq`
//! children; every executable tree operation is specified against it.  The
//! open path of the parser is the rightmost spine of the tree: each open
//! block is the last child of its parent, so a depth alone identifies the
//! current block.  `spine_node`, `spine_set` and `spine_ok` read, replace
//! and validate the node a given number of steps down that spine.

use vstd::prelude::*;
use crate::ast::{HtmlType, ListProximity};

verus! {

/// List kind: unordered with its bullet, or ordered with its closing
/// delimiter (`.` or `)`) and start number.
pub enum ListTypeM {
    Unordered(char),
    Ordered(char, int),
}

/// Model of a block-tree node.
#[verifier::ext_equal]
pub enum NodeM {
    Root { children: Seq<NodeM> },
    BlockQuote { children: Seq<NodeM> },
    List { list_type: ListTypeM, proximity: ListProximity, children: Seq<NodeM> },
    ListItem { indent: int, children: Seq<NodeM> },
    ThematicBreak,
    Heading { level: u8, children: Seq<NodeM> },
    Paragraph { children: Seq<NodeM> },
    Code { text: Seq<char>, info: Option<Seq<char>> },
    Html { text: Seq<char>, html_type: HtmlType },
    Text { text: Seq<char> },
}

/// The node kinds that accept children while parsing.
pub open spec fn is_parent_m(n: NodeM) -> bool {
    match n {
        NodeM::Root { .. } => true,
        NodeM::BlockQuote { .. } => true,
        NodeM::List { .. } => true,
        NodeM::ListItem { .. } => true,
        NodeM::Paragraph { .. } => true,
        _ => false,
    }
}

/// The children of a node; empty for leaves.
pub open spec fn children_of(n: NodeM) -> Seq<NodeM> {
    match n {
        NodeM::Root { children } => children,
        NodeM::BlockQuote { children } => children,
        NodeM::List { children, .. } => children,
        NodeM::ListItem { children, .. } => children,
        NodeM::Heading { children, .. } => children,
        NodeM::Paragraph { children } => children,
        _ => Seq::empty(),
    }
}

/// Replace the children of a node; leaves are unchanged.
pub open spec fn with_children(n: NodeM, cs: Seq<NodeM>) -> NodeM {
    match n {
        NodeM::Root { .. } => NodeM::Root { children: cs },
        NodeM::BlockQuote { .. } => NodeM::BlockQuote { children: cs },
        NodeM::List { list_type, proximity, .. } => NodeM::List { list_type, proximity, children: cs },
        NodeM::ListItem { indent, .. } => NodeM::ListItem { indent, children: cs },
        NodeM::Heading { level, .. } => NodeM::Heading { level, children: cs },
        NodeM::Paragraph { .. } => NodeM::Paragraph { children: cs },
        _ => n,
    }
}

/// The node `d` steps down the rightmost spine.
pub open spec fn spine_node(n: NodeM, d: int) -> NodeM
    decreases d,
{
    if d <= 0 {
        n
    } else {
        spine_node(children_of(n).last(), d - 1)
    }
}

/// The rightmost spine exists down to depth `d`: every node strictly above
/// the end is a parent with at least one child.
pub open spec fn spine_ok(n: NodeM, d: int) -> bool
    decreases d,
{
    d <= 0 || (is_parent_m(n) && children_of(n).len() > 0 && spine_ok(children_of(n).last(), d - 1))
}

/// Replace the node `d` steps down the rightmost spine.  A node without
/// children has no spine to follow and is left unchanged.
pub open spec fn spine_set(n: NodeM, d: int, m: NodeM) -> NodeM
    decreases d,
{
    if d <= 0 {
        m
    } else if children_of(n).len() == 0 {
        n
    } else {
        let cs = children_of(n);
        with_children(n, cs.update(cs.len() - 1, spine_set(cs.last(), d - 1, m)))
    }
}

/// Reading back what was just written at the end of the spine.
pub proof fn lemma_spine_set_get(n: NodeM, d: int, m: NodeM)
    requires
        spine_ok(n, d),
    ensures
        spine_node(spine_set(n, d, m), d) == m,
    decreases d,
{
    if d > 0 {
        let cs = children_of(n);
        lemma_spine_set_get(cs.last(), d - 1, m);
        let cs2 = cs.update(cs.len() - 1, spine_set(cs.last(), d - 1, m));
        assert(cs2.last() == spine_set(cs.last(), d - 1, m));
    }
}

/// Replacing the spine end keeps the spine valid.
pub proof fn lemma_spine_set_ok(n: NodeM, d: int, m: NodeM)
    requires
        spine_ok(n, d),
    ensures
        spine_ok(spine_set(n, d, m), d),
    decreases d,
{
    if d > 0 {
        let cs = children_of(n);
        lemma_spine_set_ok(cs.last(), d - 1, m);
        let cs2 = cs.update(cs.len() - 1, spine_set(cs.last(), d - 1, m));
        assert(cs2.last() == spine_set(cs.last(), d - 1, m));
    }
}

/// Along a valid spine, every node above the end is a parent with
/// children, and the spine below any point is the spine of that point.
pub proof fn lemma_spine_ok_node(n: NodeM, dd: int, k: int)
    requires
        spine_ok(n, dd),
        0 <= k < dd,
    ensures
        is_parent_m(spine_node(n, k)),
        children_of(spine_node(n, k)).len() > 0,
    decreases k,
{
    if k > 0 {
        lemma_spine_ok_node(children_of(n).last(), dd - 1, k - 1);
    }
}

/// A valid spine is valid at every smaller depth.
pub proof fn lemma_spine_ok_prefix(n: NodeM, d: int, k: int)
    requires
        spine_ok(n, d),
        k <= d,
    ensures
        spine_ok(n, k),
    decreases d,
{
    if k > 0 && d > 0 {
        lemma_spine_ok_prefix(children_of(n).last(), d - 1, k - 1);
    }
}

} // verus!
