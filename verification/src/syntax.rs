//! The part of a Markdown syntax tree that task files are read from, as
//! the `markdown` crate parses it with its GitHub flavour.
use vstd::prelude::*;
use markdown::mdast::Node as MdastNode;

verus! {

/// `markdown::mdast::Node`, carried through the wrapper that converts it.
#[verifier::external_type_specification]
#[verifier::external_body]
pub struct ExMdastNode(MdastNode);

/// `markdown::message::Message`, carried through the wrapper that converts it.
#[verifier::external_type_specification]
#[verifier::external_body]
pub struct ExMarkdownMessage(markdown::message::Message);

/// `markdown::unist::Position`, carried through the converters.
#[verifier::external_type_specification]
#[verifier::external_body]
pub struct ExUnistPosition(markdown::unist::Position);

/// The kinds of node that task files are made of; every other kind is
/// `Other`.
#[derive(Debug, Clone, Copy, PartialEq, Eq, Structural)]
pub enum MdKind {
    Root,
    /// A heading of the given rank.
    Heading(u8),
    List,
    /// A list item, with its GFM check box: done, not done, or none.
    ListItem(Option<bool>),
    Paragraph,
    InlineCode,
    Other,
}

/// A place in the source text: line and column count from 1.
#[derive(Debug, Clone, Copy, PartialEq, Eq, Structural)]
pub struct MdPoint {
    pub line: usize,
    pub column: usize,
}

/// A region of the source text, from `start` up to `end`.
#[derive(Debug, Clone, Copy, PartialEq, Eq, Structural)]
pub struct MdPosition {
    pub start: MdPoint,
    pub end: MdPoint,
}

/// A node of the syntax tree: its kind, its text (`Node::to_string`: the
/// text of its descendants, or an inline code's value), its children
/// when it can have any, and where it stands.
#[derive(Debug)]
pub struct MdNode {
    pub kind: MdKind,
    pub text: String,
    pub children: Option<Vec<MdNode>>,
    pub position: Option<MdPosition>,
}

/// Mathematical model of an [`MdNode`].
pub struct MdNodeView {
    pub kind: MdKind,
    pub text: Seq<char>,
    pub children: Option<Seq<MdNodeView>>,
    pub position: Option<MdPosition>,
}

/// The model of a node.
pub open spec fn md_view(n: MdNode) -> MdNodeView
    decreases n,
{
    MdNodeView {
        kind: n.kind,
        text: n.text@,
        children: match n.children {
            Some(v) => Some(md_views(v@)),
            None => None,
        },
        position: n.position,
    }
}

/// The models of a list of nodes.
pub open spec fn md_views(s: Seq<MdNode>) -> Seq<MdNodeView>
    decreases s,
{
    if s.len() == 0 {
        Seq::empty()
    } else {
        md_views(s.drop_last()).push(md_view(s.last()))
    }
}

impl View for MdNode {
    type V = MdNodeView;

    open spec fn view(&self) -> MdNodeView {
        md_view(*self)
    }
}

/// The models of a list are the models of its items, in order.
pub proof fn lemma_md_views(s: Seq<MdNode>)
    ensures
        md_views(s).len() == s.len(),
        forall|i: int| 0 <= i < s.len() ==> #[trigger] md_views(s)[i] == md_view(s[i]),
    decreases s.len(),
{
    if s.len() > 0 {
        lemma_md_views(s.drop_last());
        assert forall|i: int| 0 <= i < s.len() implies #[trigger] md_views(s)[i] == md_view(
            s[i],
        ) by {
            if i < s.len() - 1 {
                assert(s.drop_last()[i] == s[i]);
            }
        }
    }
}

/// Why a text could not be parsed, and where.
#[derive(Debug, Clone)]
pub struct MdMessage {
    pub reason: String,
    pub place: Option<MdPosition>,
}

/// Mathematical model of an [`MdMessage`].
pub struct MdMessageView {
    pub reason: Seq<char>,
    pub place: Option<MdPosition>,
}

impl View for MdMessage {
    type V = MdMessageView;

    open spec fn view(&self) -> MdMessageView {
        MdMessageView { reason: self.reason@, place: self.place }
    }
}

/// The syntax tree that `markdown::to_mdast` with `ParseOptions::gfm()`
/// gives for a text, or its message.
pub uninterp spec fn markdown_tree(s: Seq<char>) -> Result<MdNodeView, MdMessageView>;

/// Parses Markdown with GitHub's extensions (`markdown::to_mdast` with
/// `ParseOptions::gfm()`); the result is named, not described.
#[verifier::external_body]
pub fn parse_markdown(s: &str) -> (r: Result<MdNode, MdMessage>)
    ensures
        match r {
            Ok(n) => markdown_tree(s@) == Ok::<MdNodeView, MdMessageView>(n@),
            Err(m) => markdown_tree(s@) == Err::<MdNodeView, MdMessageView>(m@),
        },
{
    match markdown::to_mdast(s, &markdown::ParseOptions::gfm()) {
        Ok(n) => Ok(node_of(&n)),
        Err(m) => Err(message_of(&m)),
    }
}

/// The library's form of a syntax tree node.
#[verifier::external_body]
fn node_of(n: &MdastNode) -> MdNode {
    let children = n.children().map(|v| v.iter().map(node_of).collect());
    MdNode { kind: kind_of(n), text: n.to_string(), children, position: n.position().map(position_of) }
}

/// The library's form of a node's kind.
#[verifier::external_body]
fn kind_of(n: &MdastNode) -> MdKind {
    match n {
        MdastNode::Root(_) => MdKind::Root,
        MdastNode::Heading(h) => MdKind::Heading(h.depth),
        MdastNode::List(_) => MdKind::List,
        MdastNode::ListItem(i) => MdKind::ListItem(i.checked),
        MdastNode::Paragraph(_) => MdKind::Paragraph,
        MdastNode::InlineCode(_) => MdKind::InlineCode,
        _ => MdKind::Other,
    }
}

/// The library's form of a source region.
#[verifier::external_body]
fn position_of(p: &markdown::unist::Position) -> MdPosition {
    MdPosition {
        start: MdPoint { line: p.start.line, column: p.start.column },
        end: MdPoint { line: p.end.line, column: p.end.column },
    }
}

/// The library's form of a parse message; a point is a region of no length.
#[verifier::external_body]
fn message_of(m: &markdown::message::Message) -> MdMessage {
    let place = m.place.as_ref().map(|p| match &**p {
        markdown::message::Place::Position(pos) => position_of(pos),
        markdown::message::Place::Point(pt) => position_of(
            &markdown::unist::Position { start: pt.clone(), end: pt.clone() },
        ),
    });
    MdMessage { reason: m.reason.clone(), place }
}

} // verus!
