//! The block abstract syntax tree.
//!
//! Containers (`Root`, `BlockQuote`, `List`, `ListItem`, `Paragraph`) hold
//! ordered children; leaves (`Heading`, `ThematicBreak`, `Code`, `Html`,
//! `Text`) hold text and attributes.  Each node views to a `NodeM` of the
//! mathematical model.

use vstd::prelude::*;
use crate::model::{ListTypeM, NodeM};

verus! {

/// List kind: a bullet character, or an ordered delimiter with its start.
#[derive(Clone)]
pub enum ListType {
    Unordered(char),
    Ordered(char, usize),
}

/// Whether a list renders its items' paragraphs unwrapped (tight) or
/// wrapped in `<p>` (loose).
#[derive(Clone)]
pub enum ListProximity {
    Tight,
    Loose,
}

/// The seven kinds of raw HTML block, which differ in their end condition.
#[derive(Clone)]
pub enum HtmlType {
    Literal,
    Comment,
    Processing,
    Declaration,
    Cdata,
    Simple,
    Custom,
}

/// Node.
pub enum Node {
    Root(Root),
    BlockQuote(BlockQuote),
    List(List),
    ListItem(ListItem),
    ThematicBreak,
    Heading(Heading),
    Paragraph(Paragraph),
    Code(Code),
    Html(Html),
    Text(String),
}

/// Root.
pub struct Root {
    pub children: Vec<Node>,
}

/// Block quote.
pub struct BlockQuote {
    pub children: Vec<Node>,
}

/// List.
pub struct List {
    pub list_type: ListType,
    pub proximity: ListProximity,
    pub children: Vec<Node>,
}

/// List item.
pub struct ListItem {
    pub indent: usize,
    pub children: Vec<Node>,
}

/// Heading.
pub struct Heading {
    pub level: u8,
    pub children: Vec<Node>,
}

/// Paragraph.
pub struct Paragraph {
    pub children: Vec<Node>,
}

/// Code.
pub struct Code {
    pub text: String,
    pub info: Option<String>,
}

/// HTML.
pub struct Html {
    pub text: String,
    pub html_type: HtmlType,
}

impl View for ListType {
    type V = ListTypeM;

    open spec fn view(&self) -> ListTypeM {
        match self {
            ListType::Unordered(c) => ListTypeM::Unordered(*c),
            ListType::Ordered(c, start) => ListTypeM::Ordered(*c, *start as int),
        }
    }
}

/// Model of a sequence of nodes.
pub open spec fn view_nodes(s: Seq<Node>) -> Seq<NodeM>
    decreases s,
{
    if s.len() == 0 {
        Seq::empty()
    } else {
        view_nodes(s.drop_last()).push(view_node(s.last()))
    }
}

/// Model of a single node.
pub open spec fn view_node(n: Node) -> NodeM
    decreases n,
{
    match n {
        Node::Root(x) => NodeM::Root { children: view_nodes(x.children@) },
        Node::BlockQuote(x) => NodeM::BlockQuote { children: view_nodes(x.children@) },
        Node::List(x) => NodeM::List {
            list_type: x.list_type@,
            proximity: x.proximity,
            children: view_nodes(x.children@),
        },
        Node::ListItem(x) => NodeM::ListItem {
            indent: x.indent as int,
            children: view_nodes(x.children@),
        },
        Node::ThematicBreak => NodeM::ThematicBreak,
        Node::Heading(x) => NodeM::Heading { level: x.level, children: view_nodes(x.children@) },
        Node::Paragraph(x) => NodeM::Paragraph { children: view_nodes(x.children@) },
        Node::Code(x) => NodeM::Code {
            text: x.text@,
            info: match x.info {
                Some(i) => Some(i@),
                None => None,
            },
        },
        Node::Html(x) => NodeM::Html { text: x.text@, html_type: x.html_type },
        Node::Text(x) => NodeM::Text { text: x@ },
    }
}

impl View for Node {
    type V = NodeM;

    open spec fn view(&self) -> NodeM {
        view_node(*self)
    }
}

/// The viewed children are the pointwise views of the children.
pub proof fn lemma_view_nodes(s: Seq<Node>)
    ensures
        view_nodes(s).len() == s.len(),
        forall|i: int| 0 <= i < s.len() ==> view_nodes(s)[i] == view_node(#[trigger] s[i]),
    decreases s,
{
    if s.len() > 0 {
        lemma_view_nodes(s.drop_last());
        assert forall|i: int| 0 <= i < s.len() implies view_nodes(s)[i] == view_node(s[i]) by {
            if i < s.len() - 1 {
                assert(s.drop_last()[i] == s[i]);
            }
        }
    }
}

pub proof fn lemma_view_nodes_push(s: Seq<Node>, n: Node)
    ensures
        view_nodes(s.push(n)) == view_nodes(s).push(view_node(n)),
{
    assert(s.push(n).drop_last() =~= s);
    assert(s.push(n).last() == n);
}

pub proof fn lemma_view_nodes_drop_last(s: Seq<Node>)
    requires
        s.len() > 0,
    ensures
        view_nodes(s.drop_last()) == view_nodes(s).drop_last(),
{
    assert(view_nodes(s) == view_nodes(s.drop_last()).push(view_node(s.last())));
    assert(view_nodes(s).drop_last() =~= view_nodes(s.drop_last()));
}

impl Node {
    /// The children of a container node, for mutation; leaves have none.
    pub fn children_mut(&mut self) -> (r: Option<&mut Vec<Node>>)
        ensures
            crate::model::is_parent_m(old(self)@) <==> r is Some,
            match r {
                Some(c) => {
                    &&& view_nodes((*c)@) == crate::model::children_of(old(self)@)
                    &&& final(self)@ == crate::model::with_children(
                        old(self)@,
                        view_nodes(final(c)@),
                    )
                },
                None => final(self)@ == old(self)@,
            },
    {
        match self {
            Node::Root(x) => Option::Some(&mut x.children),
            Node::BlockQuote(x) => Option::Some(&mut x.children),
            Node::List(x) => Option::Some(&mut x.children),
            Node::ListItem(x) => Option::Some(&mut x.children),
            Node::Paragraph(x) => Option::Some(&mut x.children),
            _ => Option::None,
        }
    }

    /// Does this node accept children while parsing?
    pub fn accepts_children(&self) -> (r: bool)
        ensures
            r == crate::model::is_parent_m(self@),
    {
        match self {
            Node::Root(_) => true,
            Node::BlockQuote(_) => true,
            Node::List(_) => true,
            Node::ListItem(_) => true,
            Node::Paragraph(_) => true,
            _ => false,
        }
    }
}

impl Root {
    pub fn new() -> (r: Self)
        ensures
            r.children@.len() == 0,
    {
        Self { children: Vec::new() }
    }
}

impl BlockQuote {
    pub fn new() -> (r: Self)
        ensures
            r.children@.len() == 0,
    {
        Self { children: Vec::new() }
    }
}

impl List {
    pub fn new(list_type: ListType) -> (r: Self)
        ensures
            r.list_type == list_type,
            r.proximity is Tight,
            r.children@.len() == 0,
    {
        Self { list_type, proximity: ListProximity::Tight, children: Vec::new() }
    }
}

impl ListItem {
    pub fn new(indent: usize) -> (r: Self)
        ensures
            r.indent == indent,
            r.children@.len() == 0,
    {
        Self { indent, children: Vec::new() }
    }
}

impl Heading {
    pub fn new(level: u8, children: Vec<Node>) -> (r: Self)
        ensures
            r.level == level,
            r.children == children,
    {
        Self { level, children }
    }
}

impl Paragraph {
    pub fn new() -> (r: Self)
        ensures
            r.children@.len() == 0,
    {
        Self { children: Vec::new() }
    }
}

impl Code {
    pub fn new() -> (r: Self)
        ensures
            r.text@.len() == 0,
            r.info is None,
    {
        Self { text: String::new(), info: None }
    }
}

impl Html {
    pub fn new(text: String, html_type: HtmlType) -> (r: Self)
        ensures
            r.text == text,
            r.html_type == html_type,
    {
        Self { text, html_type }
    }
}

} // verus!
