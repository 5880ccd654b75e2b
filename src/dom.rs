use vstd::prelude::*;

use kuchiki::iter::NodeEdge;
use kuchiki::traits::TendrilSink;
use kuchiki::NodeData;

use crate::text::{normalize, normalized};

verus! {

/// A node of a parsed document: an element with its name and children, a
/// text, or any other node (the document itself, a comment, a doctype).
pub enum Node {
    Element { name: String, children: Vec<Node> },
    Text { text: String },
    Other { children: Vec<Node> },
}

impl Node {
    /// The children of the node, in document order.
    pub open spec fn kids(self) -> Seq<Node> {
        match self {
            Node::Element { children, .. } => children@,
            Node::Text { .. } => Seq::empty(),
            Node::Other { children } => children@,
        }
    }
}

/// The normalized text of the text nodes under `n`, which stands at depth `d`;
/// nothing below `max` is read.
pub open spec fn text_of(n: Node, d: int, max: int) -> Seq<char>
    decreases max + 1 - d, 0int,
{
    if d > max {
        Seq::empty()
    } else {
        match n {
            Node::Text { text } => normalized(text@),
            _ => texts_of(n.kids(), n.kids().len() as int, d + 1, max),
        }
    }
}

/// The texts of the first `k` nodes of `kids`, which stand at depth `d`.
pub open spec fn texts_of(kids: Seq<Node>, k: int, d: int, max: int) -> Seq<char>
    decreases max + 1 - d, k,
{
    if k <= 0 || k > kids.len() {
        Seq::empty()
    } else {
        texts_of(kids, k - 1, d, max) + text_of(kids[k - 1], d, max)
    }
}

/// Appends the text under `node` to `out`.
pub fn collect_text(out: &mut String, node: &Node, depth: usize, max_depth: usize)
    ensures
        final(out)@ == old(out)@ + text_of(*node, depth as int, max_depth as int),
    decreases max_depth + 1 - depth, 1int,
{
    if depth > max_depth {
        return;
    }
    match node {
        Node::Text { text } => {
            let t = normalize(text.as_str());
            out.append(t.as_str());
        },
        Node::Element { children, .. } | Node::Other { children } => {
            collect_texts(out, children, depth, max_depth);
        },
    }
}

/// Appends the text under each of `children`, whose parent stands at `depth`.
pub(crate) fn collect_texts(out: &mut String, children: &Vec<Node>, depth: usize, max_depth: usize)
    requires
        depth <= max_depth,
    ensures
        final(out)@ == old(out)@ + texts_of(
            children@,
            children@.len() as int,
            depth + 1,
            max_depth as int,
        ),
    decreases max_depth + 1 - depth, 0int,
{
    if depth == max_depth {
        let ghost s = children@;
        proof {
            lemma_texts_beyond(s, s.len() as int, depth + 1, max_depth as int);
        }
        assert(out@ =~= out@ + Seq::<char>::empty());
        return;
    }
    let ghost start = out@;
    let mut i: usize = 0;
    while i < children.len()
        invariant
            depth < max_depth,
            i <= children@.len(),
            out@ == start + texts_of(children@, i as int, depth + 1, max_depth as int),
        decreases children@.len() - i,
    {
        collect_text(out, &children[i], depth + 1, max_depth);
        proof {
            assert(texts_of(children@, i + 1, depth + 1, max_depth as int) == texts_of(
                children@,
                i as int,
                depth + 1,
                max_depth as int,
            ) + text_of(children@[i as int], depth + 1, max_depth as int));
            assert(out@ =~= start + texts_of(children@, i + 1, depth + 1, max_depth as int));
        }
        i = i + 1;
    }
}

proof fn lemma_texts_beyond(s: Seq<Node>, k: int, d: int, max: int)
    requires
        d > max,
    ensures
        texts_of(s, k, d, max) == Seq::<char>::empty(),
    decreases k,
{
    if k > 0 && k <= s.len() {
        lemma_texts_beyond(s, k - 1, d, max);
        assert(texts_of(s, k - 1, d, max) + text_of(s[k - 1], d, max) =~= Seq::<char>::empty());
    }
}

/// The document tree, with every node, that html5ever builds from `html`.
pub uninterp spec fn parsed_tree(html: Seq<char>) -> Node;

/// Relies on `kuchiki::parse_html` and `kuchiki::NodeRef::traverse_inclusive`:
/// html5ever parses the markup, and the walk meets each node's start before
/// its children and its end after them; each node is copied, element names,
/// texts and child order kept. The parser turns the text into a tendril,
/// which holds at most `u32::MAX` bytes.
#[verifier::external_body]
fn parse_tree(html: &str) -> (r: Node)
    requires
        html@.len() <= 0x3fff_ffff,
    ensures
        r == parsed_tree(html@),
{
    let mut open: Vec<Vec<Node>> = vec![vec![]];
    for edge in kuchiki::parse_html().one(html).traverse_inclusive() {
        if let NodeEdge::End(n) = edge {
            let children = open.pop().unwrap();
            let node = match n.data() {
                NodeData::Element(e) => Node::Element { name: e.name.local.to_string(), children },
                NodeData::Text(t) => Node::Text { text: t.borrow().clone() },
                _ => Node::Other { children },
            };
            open.last_mut().unwrap().push(node);
        } else {
            open.push(vec![]);
        }
    }
    open.pop().unwrap().pop().unwrap()
}

/// Parses `html` into a document tree.
pub fn parse_document(html: &str) -> (r: Node)
    requires
        html@.len() <= 0x3fff_ffff,
    ensures
        r == parsed_tree(html@),
{
    parse_tree(html)
}

} // verus!
