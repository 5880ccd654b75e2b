use vstd::prelude::*;

use crate::dom::{parse_document, parsed_tree, Node};
use crate::heading::{create_heading, heading_of, opt_view, Heading, HeadingM};
use crate::sectioning_type::{is_sectioning_root, sectioning_root, SectioningType};
use crate::text::same_text;

verus! {

/// A node of the sectioning tree: its kind, the heading it owns, and the
/// sections and further headings within it, in document order.
pub struct StructureM {
    pub kind: SectioningType,
    pub heading: Option<HeadingM>,
    pub subs: Seq<StructureM>,
}

/// The sectioning tree of a document, with the headings of each section.
#[derive(Debug)]
pub struct OutlineStructure {
    pub sectioning_type: SectioningType,
    pub heading: Option<Heading>,
    pub sub_outline_structures: Vec<OutlineStructure>,
}

/// The model of a sectioning tree.
pub open spec fn structure_model(s: OutlineStructure) -> StructureM
    decreases s,
{
    StructureM {
        kind: s.sectioning_type,
        heading: opt_view(s.heading),
        subs: Seq::new(
            s.sub_outline_structures@.len(),
            |i: int|
                if 0 <= i < s.sub_outline_structures@.len() {
                    structure_model(s.sub_outline_structures@[i])
                } else {
                    empty_structure(SectioningType::Root)
                },
        ),
    }
}

impl View for OutlineStructure {
    type V = StructureM;

    open spec fn view(&self) -> StructureM {
        structure_model(*self)
    }
}

/// The models of a sequence of sectioning trees.
pub open spec fn smodels(s: Seq<OutlineStructure>) -> Seq<StructureM> {
    Seq::new(s.len(), |i: int| s[i]@)
}

/// The model of an optional sectioning tree.
pub open spec fn opt_sview(s: Option<OutlineStructure>) -> Option<StructureM> {
    match s {
        Some(s) => Some(s@),
        None => None,
    }
}

pub proof fn lemma_structure_view(s: OutlineStructure)
    ensures
        s@ == (StructureM {
            kind: s.sectioning_type,
            heading: opt_view(s.heading),
            subs: smodels(s.sub_outline_structures@),
        }),
{
    assert(s@.subs =~= smodels(s.sub_outline_structures@));
}

/// A node of the given kind with no heading and nothing in it.
pub open spec fn empty_structure(kind: SectioningType) -> StructureM {
    StructureM { kind, heading: None, subs: Seq::empty() }
}

/// A node that holds one heading beyond the first of its scope.
pub open spec fn heading_leaf(h: HeadingM) -> StructureM {
    StructureM { kind: SectioningType::Heading, heading: Some(h), subs: Seq::empty() }
}

/// Adds heading `h` to `s`: as its own heading while `find` holds, else as a
/// heading node after its other contents.
pub open spec fn attach_heading(s: StructureM, h: HeadingM, find: bool) -> StructureM {
    if find {
        StructureM { heading: Some(h), ..s }
    } else {
        StructureM { subs: s.subs.push(heading_leaf(h)), ..s }
    }
}

/// What child `c` of a node at depth `pd` adds to the node built so far, `s`,
/// and whether a heading of the node is still to be found.
pub open spec fn build_step(
    s: StructureM,
    find: bool,
    c: Node,
    pd: int,
    max: int,
) -> (StructureM, bool)
    decreases max + 1 - pd, 0int,
{
    match c {
        Node::Element { name, .. } => if is_sectioning_root(name@) {
            (s, find)
        } else if SectioningType::of_tag(name@) is Some {
            if pd + 1 > max {
                (s, false)
            } else {
                match structure_of(SectioningType::of_tag(name@)->0, c, pd + 1, max) {
                    Some(sub) => (StructureM { subs: s.subs.push(sub), ..s }, false),
                    None => (s, false),
                }
            }
        } else if heading_of(c, pd + 1, max) is Some {
            (attach_heading(s, heading_of(c, pd + 1, max)->0, find), false)
        } else if pd + 1 > max {
            (s, find)
        } else {
            match structure_of(SectioningType::Root, c, pd + 1, max) {
                Some(sub) => {
                    let s1 = match sub.heading {
                        Some(h) => attach_heading(s, h, find),
                        None => s,
                    };
                    (StructureM { subs: s1.subs + sub.subs, ..s1 }, find && sub.heading is None)
                },
                None => (s, find),
            }
        },
        _ => (s, find),
    }
}

/// The node of the given kind built from the first `k` of `kids`, whose parent
/// stands at depth `pd`, and whether its heading is still to be found.
pub open spec fn build_prefix(
    kind: SectioningType,
    kids: Seq<Node>,
    k: int,
    pd: int,
    max: int,
) -> (StructureM, bool)
    decreases max + 1 - pd, 1int, k,
{
    if k <= 0 || k > kids.len() {
        (empty_structure(kind), true)
    } else {
        let prev = build_prefix(kind, kids, k - 1, pd, max);
        build_step(prev.0, prev.1, kids[k - 1], pd, max)
    }
}

/// The sectioning tree of the given kind that node `n`, at depth `d`, opens.
pub open spec fn structure_of(kind: SectioningType, n: Node, d: int, max: int) -> Option<
    StructureM,
>
    decreases max + 1 - d, 2int,
{
    if d > max {
        None
    } else {
        Some(build_prefix(kind, n.kids(), n.kids().len() as int, d, max).0)
    }
}

/// The node that a kind, a heading and a list of contents make.
pub open spec fn assembled(
    kind: SectioningType,
    heading: Option<Heading>,
    subs: Seq<OutlineStructure>,
) -> StructureM {
    StructureM { kind, heading: opt_view(heading), subs: smodels(subs) }
}

proof fn lemma_smodels_push(a: Seq<OutlineStructure>, x: OutlineStructure)
    ensures
        smodels(a.push(x)) == smodels(a).push(x@),
{
    assert(smodels(a.push(x)) =~= smodels(a).push(x@));
}

proof fn lemma_smodels_concat(a: Seq<OutlineStructure>, b: Seq<OutlineStructure>)
    ensures
        smodels(a + b) == smodels(a) + smodels(b),
{
    assert(smodels(a + b) =~= smodels(a) + smodels(b));
}

/// Adds heading `h` to the node being built, as `attach_heading` says.
fn attach(
    kind: SectioningType,
    heading: &mut Option<Heading>,
    subs: &mut Vec<OutlineStructure>,
    h: Heading,
    find: bool,
)
    ensures
        assembled(kind, *final(heading), final(subs)@) == attach_heading(
            assembled(kind, *old(heading), old(subs)@),
            h@,
            find,
        ),
{
    if find {
        *heading = Some(h);
    } else {
        let leaf = OutlineStructure {
            sectioning_type: SectioningType::Heading,
            heading: Some(h),
            sub_outline_structures: Vec::new(),
        };
        proof {
            lemma_structure_view(leaf);
            assert(smodels(leaf.sub_outline_structures@) =~= Seq::<StructureM>::empty());
            lemma_smodels_push(subs@, leaf);
        }
        subs.push(leaf);
    }
}

/// Builds the node of the given kind from `children`, whose parent stands at
/// `depth`.
fn build_children(kind: SectioningType, children: &Vec<Node>, depth: usize, max_depth: usize) -> (r:
    OutlineStructure)
    requires
        depth <= max_depth,
    ensures
        r@ == build_prefix(kind, children@, children@.len() as int, depth as int, max_depth as int).0,
    decreases max_depth + 1 - depth, 1int,
{
    let mut heading: Option<Heading> = None;
    let mut subs: Vec<OutlineStructure> = Vec::new();
    let mut find = true;
    let ghost kids = children@;
    let ghost pd = depth as int;
    let ghost max = max_depth as int;
    proof {
        assert(smodels(subs@) =~= Seq::<StructureM>::empty());
    }
    let mut i: usize = 0;
    while i < children.len()
        invariant
            depth <= max_depth,
            kids == children@,
            pd == depth,
            max == max_depth,
            i <= kids.len(),
            assembled(kind, heading, subs@) == build_prefix(kind, kids, i as int, pd, max).0,
            find == build_prefix(kind, kids, i as int, pd, max).1,
        decreases kids.len() - i,
    {
        let c = &children[i];
        let ghost before = assembled(kind, heading, subs@);
        let ghost find0 = find;
        proof {
            assert(build_prefix(kind, kids, i + 1, pd, max) == build_step(before, find0, kids[i as int], pd, max));
        }
        match c {
            Node::Element { name, .. } => {
                if sectioning_root(name.as_str()) {
                } else if let Some(t) = SectioningType::from_sectioning_content_tag(name.as_str()) {
                    if depth < max_depth {
                        if let Some(sub) = create_outline_structure(t, c, depth + 1, max_depth) {
                            proof {
                                lemma_smodels_push(subs@, sub);
                            }
                            subs.push(sub);
                        }
                    }
                    find = false;
                } else {
                    let h = if depth < max_depth {
                        create_heading(c, depth + 1, max_depth)
                    } else {
                        None
                    };
                    if let Some(h) = h {
                        attach(kind, &mut heading, &mut subs, h, find);
                        find = false;
                    } else if depth < max_depth {
                        if let Some(sub) = create_outline_structure(SectioningType::Root, c, depth + 1, max_depth) {
                            proof {
                                lemma_structure_view(sub);
                            }
                            let OutlineStructure { heading: sh, sub_outline_structures: mut rest, .. } = sub;
                            if let Some(h) = sh {
                                attach(kind, &mut heading, &mut subs, h, find);
                                find = false;
                            }
                            proof {
                                lemma_smodels_concat(subs@, rest@);
                            }
                            subs.append(&mut rest);
                        }
                    }
                }
            },
            _ => {},
        }
        i = i + 1;
    }
    let r = OutlineStructure { sectioning_type: kind, heading, sub_outline_structures: subs };
    proof {
        lemma_structure_view(r);
    }
    r
}

/// Builds the sectioning tree of the given kind that `node`, at `depth`, opens.
pub fn create_outline_structure(
    kind: SectioningType,
    node: &Node,
    depth: usize,
    max_depth: usize,
) -> (r: Option<OutlineStructure>)
    ensures
        opt_sview(r) == structure_of(kind, *node, depth as int, max_depth as int),
    decreases max_depth + 1 - depth, 2int,
{
    if depth > max_depth {
        return None;
    }
    match node {
        Node::Element { children, .. } | Node::Other { children } => Some(
            build_children(kind, children, depth, max_depth),
        ),
        Node::Text { .. } => {
            let r = OutlineStructure::new(kind);
            proof {
                assert(node.kids() =~= Seq::<Node>::empty());
            }
            Some(r)
        },
    }
}

impl OutlineStructure {
    /// A node of the given kind with no heading and nothing in it.
    pub fn new(sectioning_type: SectioningType) -> (r: OutlineStructure)
        ensures
            r@ == empty_structure(sectioning_type),
    {
        let r = OutlineStructure { sectioning_type, heading: None, sub_outline_structures: Vec::new() };
        proof {
            lemma_structure_view(r);
            assert(smodels(r.sub_outline_structures@) =~= Seq::<StructureM>::empty());
        }
        r
    }
}

/// The sectioning tree that the first `body` element at or under `n`, at
/// depth `d`, opens.
pub open spec fn body_of(n: Node, d: int, max: int) -> Option<StructureM>
    decreases max + 1 - d, 0int, 0int,
{
    if d > max {
        None
    } else if n is Element && n->name@ == "body"@ {
        match structure_of(SectioningType::Body, n, d, max) {
            Some(s) => Some(s),
            None => Some(empty_structure(SectioningType::Root)),
        }
    } else {
        first_body(n.kids(), n.kids().len() as int, d + 1, max)
    }
}

/// The sectioning tree of the first `body` element under the first `k` of
/// `kids`, which stand at depth `d`.
pub open spec fn first_body(kids: Seq<Node>, k: int, d: int, max: int) -> Option<StructureM>
    decreases max + 1 - d, 1int, k,
{
    if k <= 0 || k > kids.len() {
        None
    } else {
        match first_body(kids, k - 1, d, max) {
            Some(s) => Some(s),
            None => body_of(kids[k - 1], d, max),
        }
    }
}

/// The sectioning tree of a document: that of its `body` element, or of the
/// whole tree where it has none.
pub open spec fn document_structure(n: Node, max: int) -> StructureM {
    match body_of(n, 0, max) {
        Some(s) => s,
        None => match structure_of(SectioningType::Root, n, 0, max) {
            Some(s) => s,
            None => empty_structure(SectioningType::Root),
        },
    }
}

proof fn lemma_first_body_beyond(kids: Seq<Node>, k: int, d: int, max: int)
    requires
        d > max,
    ensures
        first_body(kids, k, d, max) is None,
    decreases k,
{
    if k > 0 && k <= kids.len() {
        lemma_first_body_beyond(kids, k - 1, d, max);
        assert(body_of(kids[k - 1], d, max) is None);
    }
}

proof fn lemma_first_body_found(kids: Seq<Node>, j: int, k: int, d: int, max: int)
    requires
        0 < j <= k <= kids.len(),
        first_body(kids, j, d, max) is Some,
    ensures
        first_body(kids, k, d, max) == first_body(kids, j, d, max),
    decreases k - j,
{
    if k > j {
        lemma_first_body_found(kids, j, k - 1, d, max);
    }
}

/// Finds the first `body` element at or under `node` and builds its
/// sectioning tree.
fn find_body(node: &Node, depth: usize, max_depth: usize) -> (r: Option<OutlineStructure>)
    ensures
        opt_sview(r) == body_of(*node, depth as int, max_depth as int),
    decreases max_depth + 1 - depth,
{
    if depth > max_depth {
        return None;
    }
    match node {
        Node::Element { name, .. } => {
            if same_text(name.as_str(), "body") {
                return match create_outline_structure(SectioningType::Body, node, depth, max_depth) {
                    Some(s) => Some(s),
                    None => Some(OutlineStructure::new(SectioningType::Root)),
                };
            }
        },
        _ => {},
    }
    let ghost kids = node.kids();
    let children: &Vec<Node> = match node {
        Node::Element { children, .. } | Node::Other { children } => children,
        Node::Text { .. } => {
            proof {
                assert(kids =~= Seq::<Node>::empty());
            }
            return None;
        },
    };
    if depth == max_depth {
        proof {
            lemma_first_body_beyond(kids, kids.len() as int, depth + 1, max_depth as int);
        }
        return None;
    }
    assert(body_of(*node, depth as int, max_depth as int) == first_body(
        kids,
        kids.len() as int,
        depth + 1,
        max_depth as int,
    ));
    let mut i: usize = 0;
    while i < children.len()
        invariant
            depth < max_depth,
            kids == children@,
            body_of(*node, depth as int, max_depth as int) == first_body(
                kids,
                kids.len() as int,
                depth + 1,
                max_depth as int,
            ),
            i <= kids.len(),
            first_body(kids, i as int, depth + 1, max_depth as int) is None,
        decreases kids.len() - i,
    {
        let r = find_body(&children[i], depth + 1, max_depth);
        if r.is_some() {
            proof {
                lemma_first_body_found(kids, i + 1, kids.len() as int, depth + 1, max_depth as int);
            }
            return r;
        }
        i = i + 1;
    }
    None
}

impl OutlineStructure {
    /// The sectioning tree of a document tree, read down to depth `max_depth`.
    pub fn from_document(node: &Node, max_depth: usize) -> (r: OutlineStructure)
        ensures
            r@ == document_structure(*node, max_depth as int),
    {
        match find_body(node, 0, max_depth) {
            Some(s) => s,
            None => match create_outline_structure(SectioningType::Root, node, 0, max_depth) {
                Some(s) => s,
                None => OutlineStructure::new(SectioningType::Root),
            },
        }
    }

    /// Parses `html` and builds the sectioning tree of the document, read down
    /// to depth `max_depth`.
    pub fn parse_html(html: &str, max_depth: usize) -> (r: OutlineStructure)
        requires
            html@.len() <= 0x3fff_ffff,
        ensures
            r@ == document_structure(parsed_tree(html@), max_depth as int),
    {
        let d = parse_document(html);
        OutlineStructure::from_document(&d, max_depth)
    }
}

} // verus!
