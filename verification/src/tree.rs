//! Parse tree.
//!
//! Used to track parsing state.  Every open block is the last child of its
//! parent, so the open path is the rightmost spine of the tree and a depth
//! identifies the current block.  All mutation happens along that spine:
//! a node is taken out by swapping a placeholder in, modified, and swapped
//! back, which the model describes with `spine_set`.

use vstd::prelude::*;
use crate::ast::{Node, Root, ListProximity, lemma_view_nodes, lemma_view_nodes_push, lemma_view_nodes_drop_last, view_node, view_nodes};
use crate::model::{NodeM, children_of, is_parent_m, spine_node, spine_ok, spine_set, with_children, lemma_spine_set_get, lemma_spine_set_ok, lemma_spine_ok_prefix};

verus! {

/// Replacing the spine end twice is the same as replacing it once.
pub proof fn lemma_spine_set_twice(n: NodeM, d: int, a: NodeM, b: NodeM)
    ensures
        spine_set(spine_set(n, d, a), d, b) == spine_set(n, d, b),
    decreases d,
{
    if d > 0 && children_of(n).len() > 0 {
        let cs = children_of(n);
        let inner = spine_set(cs.last(), d - 1, a);
        let cs1 = cs.update(cs.len() - 1, inner);
        let n1 = with_children(n, cs1);
        lemma_spine_set_twice(cs.last(), d - 1, a, b);
        assert(cs1.last() == inner);
        assert(children_of(n1) == cs1);
        let cs2 = cs1.update(cs1.len() - 1, spine_set(cs1.last(), d - 1, b));
        assert(cs2 =~= cs.update(cs.len() - 1, spine_set(cs.last(), d - 1, b)));
        assert(with_children(n1, cs2) == with_children(n, cs2));
    }
}

/// Growing the spine by appending a child to a parent at its end.
pub proof fn lemma_spine_ok_grow(n: NodeM, d: int, m: NodeM)
    requires
        0 <= d,
        spine_ok(n, d),
        is_parent_m(spine_node(n, d)),
    ensures
        spine_ok(
            spine_set(n, d, with_children(spine_node(n, d), children_of(spine_node(n, d)).push(m))),
            d + 1,
        ),
        spine_node(
            spine_set(n, d, with_children(spine_node(n, d), children_of(spine_node(n, d)).push(m))),
            d + 1,
        ) == m,
    decreases d,
{
    let cur = spine_node(n, d);
    let grown = with_children(cur, children_of(cur).push(m));
    if d <= 0 {
        assert(children_of(grown).last() == m);
        assert(spine_ok(children_of(grown).last(), 0));
        assert(spine_ok(grown, 1));
        assert(spine_node(grown, 1) == spine_node(children_of(grown).last(), 0));
    } else {
        let cs = children_of(n);
        lemma_spine_ok_grow(cs.last(), d - 1, m);
        let cs1 = cs.update(cs.len() - 1, spine_set(cs.last(), d - 1, grown));
        assert(cs1.last() == spine_set(cs.last(), d - 1, grown));
        assert(cs1.len() == cs.len());
    }
}

/// Replacing a spine node by one of the same kind with the same children
/// disturbs neither the spine's validity nor the nodes below it.
pub proof fn lemma_spine_set_peer(n: NodeM, d: int, m: NodeM, dd: int)
    requires
        spine_ok(n, dd),
        0 <= d <= dd,
        is_parent_m(m) == is_parent_m(spine_node(n, d)),
        children_of(m) == children_of(spine_node(n, d)),
    ensures
        spine_ok(spine_set(n, d, m), dd),
        forall|k: int| d < k <= dd ==> spine_node(spine_set(n, d, m), k) == spine_node(n, k),
    decreases dd,
{
    if d == 0 {
        assert forall|k: int| d < k <= dd implies spine_node(spine_set(n, d, m), k) == spine_node(
            n,
            k,
        ) by {
            lemma_spine_node_same_children(n, m, k);
        }
        if dd > 0 {
            assert(spine_ok(m, dd));
        }
    } else {
        let cs = children_of(n);
        lemma_spine_set_peer(cs.last(), d - 1, m, dd - 1);
        let cs1 = cs.update(cs.len() - 1, spine_set(cs.last(), d - 1, m));
        assert(cs1.last() == spine_set(cs.last(), d - 1, m));
        assert(cs1.len() == cs.len());
        let n1 = with_children(n, cs1);
        assert(spine_ok(n1, dd));
        assert forall|k: int| d < k <= dd implies spine_node(n1, k) == spine_node(n, k) by {
            assert(spine_node(n1, k) == spine_node(cs1.last(), k - 1));
            assert(spine_node(n, k) == spine_node(cs.last(), k - 1));
        }
    }
}

/// Two nodes with the same children have the same spine below the top.
proof fn lemma_spine_node_same_children(n: NodeM, m: NodeM, k: int)
    requires
        children_of(m) == children_of(n),
        k >= 1,
    ensures
        spine_node(m, k) == spine_node(n, k),
{
    assert(spine_node(m, k) == spine_node(children_of(m).last(), k - 1));
    assert(spine_node(n, k) == spine_node(children_of(n).last(), k - 1));
}

/// After popping the last child, modifying it, and pushing it back, the
/// children are the model's last-child update.
proof fn lemma_swap_children(cs0: Seq<Node>, cs1: Seq<Node>)
    requires
        cs0.len() > 0,
        cs1 == cs0.drop_last().push(cs1.last()),
    ensures
        view_nodes(cs1) == view_nodes(cs0).update(cs0.len() - 1, view_node(cs1.last())),
        view_nodes(cs1).len() == cs0.len(),
{
    lemma_view_nodes(cs0);
    lemma_view_nodes(cs1);
    lemma_view_nodes_push(cs0.drop_last(), cs1.last());
    lemma_view_nodes_drop_last(cs0);
    assert(view_nodes(cs0).drop_last().push(view_node(cs1.last())) =~= view_nodes(cs0).update(
        cs0.len() - 1,
        view_node(cs1.last()),
    ));
}

/// Exchange the node `d` steps down the rightmost spine for `m`.
fn spine_swap_node(n: &mut Node, d: usize, m: Node) -> (r: Node)
    requires
        spine_ok(old(n)@, d as int),
    ensures
        r@ == spine_node(old(n)@, d as int),
        final(n)@ == spine_set(old(n)@, d as int, m@),
    decreases d,
{
    if d == 0 {
        let mut r = m;
        core::mem::swap(n, &mut r);
        r
    } else {
        match n {
            Node::Root(x) => {
                proof {
                    lemma_view_nodes(x.children@);
                }
                let ghost cs0 = x.children@;
                let mut c = x.children.pop().unwrap();
                let r = spine_swap_node(&mut c, d - 1, m);
                x.children.push(c);
                proof {
                    lemma_swap_children(cs0, x.children@);
                }
                r
            },
            Node::BlockQuote(x) => {
                proof {
                    lemma_view_nodes(x.children@);
                }
                let ghost cs0 = x.children@;
                let mut c = x.children.pop().unwrap();
                let r = spine_swap_node(&mut c, d - 1, m);
                x.children.push(c);
                proof {
                    lemma_swap_children(cs0, x.children@);
                }
                r
            },
            Node::List(x) => {
                proof {
                    lemma_view_nodes(x.children@);
                }
                let ghost cs0 = x.children@;
                let mut c = x.children.pop().unwrap();
                let r = spine_swap_node(&mut c, d - 1, m);
                x.children.push(c);
                proof {
                    lemma_swap_children(cs0, x.children@);
                }
                r
            },
            Node::ListItem(x) => {
                proof {
                    lemma_view_nodes(x.children@);
                }
                let ghost cs0 = x.children@;
                let mut c = x.children.pop().unwrap();
                let r = spine_swap_node(&mut c, d - 1, m);
                x.children.push(c);
                proof {
                    lemma_swap_children(cs0, x.children@);
                }
                r
            },
            Node::Paragraph(x) => {
                proof {
                    lemma_view_nodes(x.children@);
                }
                let ghost cs0 = x.children@;
                let mut c = x.children.pop().unwrap();
                let r = spine_swap_node(&mut c, d - 1, m);
                x.children.push(c);
                proof {
                    lemma_swap_children(cs0, x.children@);
                }
                r
            },
            _ => {
                proof {
                    assert(false);
                }
                vstd::pervasive::unreached()
            },
        }
    }
}

/// Read the node `d` steps down the rightmost spine.
fn spine_get<'a>(n: &'a Node, d: usize) -> (r: &'a Node)
    requires
        spine_ok(n@, d as int),
    ensures
        r@ == spine_node(n@, d as int),
    decreases d,
{
    if d == 0 {
        n
    } else {
        match n {
            Node::Root(x) => {
                proof {
                    lemma_view_nodes(x.children@);
                }
                spine_get(&x.children[x.children.len() - 1], d - 1)
            },
            Node::BlockQuote(x) => {
                proof {
                    lemma_view_nodes(x.children@);
                }
                spine_get(&x.children[x.children.len() - 1], d - 1)
            },
            Node::List(x) => {
                proof {
                    lemma_view_nodes(x.children@);
                }
                spine_get(&x.children[x.children.len() - 1], d - 1)
            },
            Node::ListItem(x) => {
                proof {
                    lemma_view_nodes(x.children@);
                }
                spine_get(&x.children[x.children.len() - 1], d - 1)
            },
            Node::Paragraph(x) => {
                proof {
                    lemma_view_nodes(x.children@);
                }
                spine_get(&x.children[x.children.len() - 1], d - 1)
            },
            _ => {
                proof {
                    assert(false);
                }
                vstd::pervasive::unreached()
            },
        }
    }
}

/// The tree with its open path, as the parser drives it.
pub struct Tree {
    /// The root node of the tree.
    pub root: Node,
    /// How far down the rightmost spine the current block sits.
    pub depth: usize,
}

/// Appending a child to the current block and descending into it.  A
/// current block that does not accept children is closed first.  The
/// descent is skipped in the (unreachable in practice) case that the depth
/// counter would overflow.
pub open spec fn st_push(root: NodeM, depth: int, m: NodeM) -> (NodeM, int)
    decreases depth,
{
    if depth > 0 && !is_parent_m(spine_node(root, depth)) {
        st_push(root, depth - 1, m)
    } else {
        let cur = spine_node(root, depth);
        let grown = spine_set(root, depth, with_children(cur, children_of(cur).push(m)));
        if depth >= usize::MAX as int {
            (grown, depth)
        } else {
            (grown, depth + 1)
        }
    }
}

/// Marking the list at spine depth `d` loose; anything else is unchanged.
pub open spec fn st_loosen(root: NodeM, d: int) -> NodeM {
    match spine_node(root, d) {
        NodeM::List { list_type, proximity, children } => spine_set(
            root,
            d,
            NodeM::List { list_type, proximity: ListProximity::Loose, children },
        ),
        _ => root,
    }
}

impl Tree {
    /// The tree is well formed: the root is a `Root` node and the open
    /// path exists down to `depth`.
    pub open spec fn wf(&self) -> bool {
        &&& self.root@ is Root
        &&& spine_ok(self.root@, self.depth as int)
    }

    /// The current block.
    pub open spec fn cur(&self) -> NodeM {
        spine_node(self.root@, self.depth as int)
    }

    /// Create a new tree.
    pub fn new() -> (t: Tree)
        ensures
            t.wf(),
            t.root@ == (NodeM::Root { children: Seq::<NodeM>::empty() }),
            t.depth == 0,
    {
        Tree { root: Node::Root(Root::new()), depth: 0 }
    }

    /// Borrow the current block.
    pub fn cur_ref(&self) -> (r: &Node)
        requires
            self.wf(),
        ensures
            r@ == self.cur(),
    {
        spine_get(&self.root, self.depth)
    }

    /// Borrow the node `d` steps down the open path.
    pub fn at_ref(&self, d: usize) -> (r: &Node)
        requires
            self.wf(),
            d <= self.depth,
        ensures
            r@ == spine_node(self.root@, d as int),
    {
        proof {
            lemma_spine_ok_prefix(self.root@, self.depth as int, d as int);
        }
        spine_get(&self.root, d)
    }

    /// Exchange the current block for `m`, returning the block it replaces.
    /// The caller is expected to swap a completed block back in.
    pub fn swap_cur(&mut self, m: Node) -> (r: Node)
        requires
            old(self).wf(),
        ensures
            r@ == old(self).cur(),
            final(self).root@ == spine_set(old(self).root@, old(self).depth as int, m@),
            final(self).depth == old(self).depth,
            spine_ok(final(self).root@, final(self).depth as int),
            old(self).depth > 0 ==> final(self).root@ is Root,
    {
        let r = spine_swap_node(&mut self.root, self.depth, m);
        proof {
            lemma_spine_set_ok(old(self).root@, self.depth as int, m@);
        }
        r
    }

    /// Push a node onto the tree and focus it.
    pub fn push(&mut self, node: Node)
        requires
            old(self).wf(),
        ensures
            (final(self).root@, final(self).depth as int) == st_push(
                old(self).root@,
                old(self).depth as int,
                node@,
            ),
            final(self).wf(),
    {
        loop
            invariant
                self.wf(),
                self.root == old(self).root,
                st_push(self.root@, self.depth as int, node@) == st_push(
                    old(self).root@,
                    old(self).depth as int,
                    node@,
                ),
            ensures
                self.wf(),
                self.root == old(self).root,
                is_parent_m(spine_node(self.root@, self.depth as int)),
                st_push(self.root@, self.depth as int, node@) == st_push(
                    old(self).root@,
                    old(self).depth as int,
                    node@,
                ),
            decreases self.depth,
        {
            let accepts = self.cur_ref().accepts_children();
            if accepts {
                break;
            }
            proof {
                assert(self.depth > 0);
            }
            self.depth = self.depth - 1;
            proof {
                lemma_spine_ok_prefix(self.root@, self.depth as int + 1, self.depth as int);
            }
        }
        let ghost root0 = self.root@;
        let ghost d = self.depth as int;
        let ghost nodem = node@;
        let placeholder = Node::ThematicBreak;
        let mut cur = spine_swap_node(&mut self.root, self.depth, placeholder);
        let ghost curm = cur@;
        match &mut cur {
            Node::Root(x) => {
                let ghost cs0 = x.children@;
                x.children.push(node);
                proof {
                    lemma_view_nodes_push(cs0, x.children@.last());
                }
            },
            Node::BlockQuote(x) => {
                let ghost cs0 = x.children@;
                x.children.push(node);
                proof {
                    lemma_view_nodes_push(cs0, x.children@.last());
                }
            },
            Node::List(x) => {
                let ghost cs0 = x.children@;
                x.children.push(node);
                proof {
                    lemma_view_nodes_push(cs0, x.children@.last());
                }
            },
            Node::ListItem(x) => {
                let ghost cs0 = x.children@;
                x.children.push(node);
                proof {
                    lemma_view_nodes_push(cs0, x.children@.last());
                }
            },
            Node::Paragraph(x) => {
                let ghost cs0 = x.children@;
                x.children.push(node);
                proof {
                    lemma_view_nodes_push(cs0, x.children@.last());
                }
            },
            _ => {
                proof {
                    assert(false);
                }
            },
        }
        proof {
            assert(cur@ == with_children(curm, children_of(curm).push(nodem)));
            lemma_spine_set_ok(root0, d, NodeM::ThematicBreak);
        }
        let _ = spine_swap_node(&mut self.root, self.depth, cur);
        proof {
            lemma_spine_set_twice(root0, d, NodeM::ThematicBreak, cur@);
            lemma_spine_ok_grow(root0, d, nodem);
        }
        if self.depth < usize::MAX {
            self.depth = self.depth + 1;
        }
        proof {
            lemma_spine_ok_prefix(self.root@, d + 1, self.depth as int);
        }
    }

    /// Pop the current node from focus.
    pub fn pop(&mut self)
        requires
            old(self).wf(),
            old(self).depth > 0,
        ensures
            final(self).root == old(self).root,
            final(self).depth == old(self).depth - 1,
            final(self).wf(),
    {
        self.depth = self.depth - 1;
        proof {
            lemma_spine_ok_prefix(self.root@, self.depth as int + 1, self.depth as int);
        }
    }

    /// Focus the last child of the current node, if there is one to focus.
    pub fn advance(&mut self) -> (ok: bool)
        requires
            old(self).wf(),
        ensures
            final(self).root == old(self).root,
            ok == (is_parent_m(old(self).cur()) && children_of(old(self).cur()).len() > 0
                && old(self).depth < usize::MAX),
            final(self).depth as int == if ok {
                old(self).depth + 1
            } else {
                old(self).depth as int
            },
            final(self).wf(),
    {
        let cur = self.cur_ref();
        let has = match cur {
            Node::Root(x) => x.children.len() > 0,
            Node::BlockQuote(x) => x.children.len() > 0,
            Node::List(x) => x.children.len() > 0,
            Node::ListItem(x) => x.children.len() > 0,
            Node::Paragraph(x) => x.children.len() > 0,
            _ => false,
        };
        proof {
            match cur {
                Node::Root(x) => lemma_view_nodes(x.children@),
                Node::BlockQuote(x) => lemma_view_nodes(x.children@),
                Node::List(x) => lemma_view_nodes(x.children@),
                Node::ListItem(x) => lemma_view_nodes(x.children@),
                Node::Paragraph(x) => lemma_view_nodes(x.children@),
                _ => (),
            }
        }
        if has && self.depth < usize::MAX {
            self.depth = self.depth + 1;
            proof {
                lemma_spine_ok_extend(self.root@, self.depth as int);
            }
            true
        } else {
            false
        }
    }

    /// Remove the current node from the tree and ascend.
    pub fn remove(&mut self)
        requires
            old(self).wf(),
            old(self).depth > 0,
        ensures
            final(self).depth == old(self).depth - 1,
            final(self).root@ == spine_set(
                old(self).root@,
                old(self).depth - 1,
                with_children(
                    spine_node(old(self).root@, old(self).depth - 1),
                    children_of(spine_node(old(self).root@, old(self).depth - 1)).drop_last(),
                ),
            ),
            final(self).wf(),
    {
        let ghost root0 = self.root@;
        let ghost d = self.depth as int - 1;
        proof {
            lemma_spine_ok_prefix(root0, d + 1, d);
            crate::model::lemma_spine_ok_node(root0, d + 1, d);
        }
        self.depth = self.depth - 1;
        let placeholder = Node::ThematicBreak;
        let mut parent = spine_swap_node(&mut self.root, self.depth, placeholder);
        let ghost pm = parent@;
        match &mut parent {
            Node::Root(x) => {
                proof {
                    lemma_view_nodes(x.children@);
                }
                let ghost cs0 = x.children@;
                let _ = x.children.pop();
                proof {
                    lemma_view_nodes_drop_last(cs0);
                }
            },
            Node::BlockQuote(x) => {
                proof {
                    lemma_view_nodes(x.children@);
                }
                let ghost cs0 = x.children@;
                let _ = x.children.pop();
                proof {
                    lemma_view_nodes_drop_last(cs0);
                }
            },
            Node::List(x) => {
                proof {
                    lemma_view_nodes(x.children@);
                }
                let ghost cs0 = x.children@;
                let _ = x.children.pop();
                proof {
                    lemma_view_nodes_drop_last(cs0);
                }
            },
            Node::ListItem(x) => {
                proof {
                    lemma_view_nodes(x.children@);
                }
                let ghost cs0 = x.children@;
                let _ = x.children.pop();
                proof {
                    lemma_view_nodes_drop_last(cs0);
                }
            },
            Node::Paragraph(x) => {
                proof {
                    lemma_view_nodes(x.children@);
                }
                let ghost cs0 = x.children@;
                let _ = x.children.pop();
                proof {
                    lemma_view_nodes_drop_last(cs0);
                }
            },
            _ => {
                proof {
                    assert(false);
                }
            },
        }
        proof {
            assert(parent@ == with_children(pm, children_of(pm).drop_last()));
            lemma_spine_set_ok(root0, d, NodeM::ThematicBreak);
        }
        let _ = spine_swap_node(&mut self.root, self.depth, parent);
        proof {
            lemma_spine_set_twice(root0, d, NodeM::ThematicBreak, parent@);
            lemma_spine_set_ok(root0, d, parent@);
            assert(self.root@ is Root);
        }
    }

    /// Mark the list `d` steps down the open path loose, if a list stands
    /// there.
    pub fn set_loose(&mut self, d: usize)
        requires
            old(self).wf(),
            d <= old(self).depth,
        ensures
            final(self).depth == old(self).depth,
            final(self).root@ == st_loosen(old(self).root@, d as int),
            final(self).cur() == (if d < old(self).depth {
                old(self).cur()
            } else {
                match old(self).cur() {
                    NodeM::List { list_type, proximity, children } => (NodeM::List {
                        list_type,
                        proximity: ListProximity::Loose,
                        children,
                    }),
                    x => x,
                }
            }),
            final(self).wf(),
    {
        let ghost root0 = self.root@;
        let ghost dd = self.depth as int;
        let is_list = match self.at_ref(d) {
            Node::List(_) => true,
            _ => false,
        };
        if !is_list {
            return ;
        }
        proof {
            lemma_spine_ok_prefix(root0, dd, d as int);
        }
        let placeholder = Node::ThematicBreak;
        let mut nd = spine_swap_node(&mut self.root, d, placeholder);
        let ghost nm = nd@;
        match &mut nd {
            Node::List(x) => {
                x.proximity = ListProximity::Loose;
            },
            _ => {
                proof {
                    assert(false);
                }
            },
        }
        proof {
            lemma_spine_set_ok(root0, d as int, NodeM::ThematicBreak);
        }
        let _ = spine_swap_node(&mut self.root, d, nd);
        proof {
            lemma_spine_set_twice(root0, d as int, NodeM::ThematicBreak, nd@);
            lemma_spine_set_peer(root0, d as int, nd@, dd);
            if d as int == dd {
                lemma_spine_set_get(root0, dd, nd@);
                assert(spine_node(self.root@, dd) == nd@);
                assert(old(self).cur() == nm);
            }
        }
    }
}

/// A push never leaves the cursor at the root.
pub proof fn lemma_st_push_pos(root: NodeM, depth: int, m: NodeM)
    requires
        depth >= 0,
    ensures
        1 <= st_push(root, depth, m).1 <= depth + 1,
    decreases depth,
{
    if depth > 0 && !is_parent_m(spine_node(root, depth)) {
        lemma_st_push_pos(root, depth - 1, m);
    }
}

/// Extending a valid spine by one step into an existing last child.
pub proof fn lemma_spine_ok_extend(n: NodeM, d: int)
    requires
        d >= 1,
        spine_ok(n, d - 1),
        is_parent_m(spine_node(n, d - 1)),
        children_of(spine_node(n, d - 1)).len() > 0,
    ensures
        spine_ok(n, d),
    decreases d,
{
    if d > 1 {
        lemma_spine_ok_extend(children_of(n).last(), d - 1);
    } else {
        assert(spine_ok(children_of(n).last(), 0));
    }
}

} // verus!
