use vstd::prelude::*;

use crate::dom::{collect_texts, texts_of, Node};

verus! {

/// What a heading is: a rank with a title, or a group of headings.
pub enum HeadingM {
    Header { level: u8, text: Seq<char> },
    Group { items: Seq<HeadingM> },
}

/// A heading element (`h1` to `h6`) with its normalized text, or a heading
/// group (`hgroup`) with the headings in it.
#[derive(Debug)]
pub enum Heading {
    Header { level: u8, text: String },
    Group(Vec<Heading>),
}

/// The model of a heading.
pub open spec fn heading_model(h: Heading) -> HeadingM
    decreases h,
{
    match h {
        Heading::Header { level, text } => HeadingM::Header { level, text: text@ },
        Heading::Group(v) => HeadingM::Group {
            items: Seq::new(
                v@.len(),
                |i: int|
                    if 0 <= i < v@.len() {
                        heading_model(v@[i])
                    } else {
                        HeadingM::Group { items: Seq::empty() }
                    },
            ),
        },
    }
}

impl View for Heading {
    type V = HeadingM;

    open spec fn view(&self) -> HeadingM {
        heading_model(*self)
    }
}

/// The models of a sequence of headings.
pub open spec fn views(s: Seq<Heading>) -> Seq<HeadingM> {
    Seq::new(s.len(), |i: int| s[i]@)
}

/// The model of an optional heading.
pub open spec fn opt_view(h: Option<Heading>) -> Option<HeadingM> {
    match h {
        Some(h) => Some(h@),
        None => None,
    }
}

/// The separator between the titles of a heading group.
pub open spec fn group_separator() -> Seq<char> {
    " \u{2014} "@
}

impl HeadingM {
    /// The rank a heading starts at: that of its first heading, for a group.
    pub open spec fn start_level(self) -> u8
        decreases self,
    {
        match self {
            HeadingM::Header { level, .. } => level,
            HeadingM::Group { items } => if items.len() > 0 {
                items[0].start_level()
            } else {
                0
            },
        }
    }

    /// The rank a heading ends at: that of its last heading, for a group.
    pub open spec fn end_level(self) -> u8
        decreases self,
    {
        match self {
            HeadingM::Header { level, .. } => level,
            HeadingM::Group { items } => if items.len() > 0 {
                items[items.len() - 1].end_level()
            } else {
                0
            },
        }
    }

    /// The title: the text of a heading element, or the titles of a group's
    /// headings joined by the separator.
    pub open spec fn text(self) -> Seq<char>
        decreases self, 0int,
    {
        match self {
            HeadingM::Header { text, .. } => text,
            HeadingM::Group { items } => joined(items, items.len() as int),
        }
    }
}

/// The titles of the first `k` headings of `items`, joined by the separator.
pub open spec fn joined(items: Seq<HeadingM>, k: int) -> Seq<char>
    decreases items, k,
{
    if k <= 0 || k > items.len() {
        Seq::empty()
    } else if k == 1 {
        items[0].text()
    } else {
        joined(items, k - 1) + group_separator() + items[k - 1].text()
    }
}

/// The rank that an element of this name is a heading of.
pub open spec fn level_of(name: Seq<char>) -> Option<u8> {
    if name.len() == 2 && name[0] == 'h' && 49 <= name[1] as u32 <= 54 {
        Some((name[1] as u32 - 48) as u8)
    } else {
        None
    }
}

/// The heading that node `n`, at depth `d`, stands for.
pub open spec fn heading_of(n: Node, d: int, max: int) -> Option<HeadingM>
    decreases max + 1 - d, 0int,
{
    if d > max {
        None
    } else {
        match n {
            Node::Element { name, children } => if level_of(name@) is Some {
                Some(
                    HeadingM::Header {
                        level: level_of(name@)->0,
                        text: texts_of(children@, children@.len() as int, d + 1, max),
                    },
                )
            } else if name@ == "hgroup"@ {
                let items = headings_in(children@, children@.len() as int, d + 1, max);
                if items.len() == 0 {
                    None
                } else {
                    Some(HeadingM::Group { items })
                }
            } else {
                None
            },
            _ => None,
        }
    }
}

/// The headings among the first `k` nodes of `kids`, which stand at depth `d`.
pub open spec fn headings_in(kids: Seq<Node>, k: int, d: int, max: int) -> Seq<HeadingM>
    decreases max + 1 - d, k,
{
    if k <= 0 || k > kids.len() {
        Seq::empty()
    } else {
        let prev = headings_in(kids, k - 1, d, max);
        match heading_of(kids[k - 1], d, max) {
            Some(h) => prev.push(h),
            None => prev,
        }
    }
}

proof fn lemma_headings_beyond(s: Seq<Node>, k: int, d: int, max: int)
    requires
        d > max,
    ensures
        headings_in(s, k, d, max) == Seq::<HeadingM>::empty(),
    decreases k,
{
    if k > 0 && k <= s.len() {
        lemma_headings_beyond(s, k - 1, d, max);
        assert(heading_of(s[k - 1], d, max) is None);
    }
}

/// The rank of a heading element of this name.
fn header_level(name: &str) -> (r: Option<u8>)
    ensures
        r == level_of(name@),
{
    if name.unicode_len() != 2 || name.get_char(0) != 'h' {
        return None;
    }
    let c = name.get_char(1);
    if 49 <= c as u32 && c as u32 <= 54 {
        Some((c as u32 - 48) as u8)
    } else {
        None
    }
}

/// Reads the heading that `node` stands for, if it is a heading element or a
/// heading group with at least one heading in it.
pub fn create_heading(node: &Node, depth: usize, max_depth: usize) -> (r: Option<Heading>)
    ensures
        opt_view(r) == heading_of(*node, depth as int, max_depth as int),
    decreases max_depth + 1 - depth, 1int,
{
    if depth > max_depth {
        return None;
    }
    match node {
        Node::Element { name, children } => {
            if let Some(level) = header_level(name.as_str()) {
                let mut text = String::new();
                collect_texts(&mut text, children, depth, max_depth);
                Some(Heading::Header { level, text })
            } else if crate::text::same_text(name.as_str(), "hgroup") {
                let v = create_headings(children, depth, max_depth);
                if v.len() == 0 {
                    None
                } else {
                    let r = Heading::Group(v);
                    assert(r@ == HeadingM::Group { items: views(v@) }) by {
                        assert(r@->items =~= views(v@));
                    }
                    Some(r)
                }
            } else {
                None
            }
        },
        _ => None,
    }
}

/// The headings among `children`, whose parent stands at `depth`.
fn create_headings(children: &Vec<Node>, depth: usize, max_depth: usize) -> (r: Vec<Heading>)
    requires
        depth <= max_depth,
    ensures
        views(r@) == headings_in(children@, children@.len() as int, depth + 1, max_depth as int),
    decreases max_depth + 1 - depth, 0int,
{
    let mut v: Vec<Heading> = Vec::new();
    if depth == max_depth {
        proof {
            lemma_headings_beyond(children@, children@.len() as int, depth + 1, max_depth as int);
            assert(views(v@) =~= Seq::<HeadingM>::empty());
        }
        return v;
    }
    let mut i: usize = 0;
    while i < children.len()
        invariant
            depth < max_depth,
            i <= children@.len(),
            views(v@) == headings_in(children@, i as int, depth + 1, max_depth as int),
        decreases children@.len() - i,
    {
        let h = create_heading(&children[i], depth + 1, max_depth);
        let ghost before = v@;
        if let Some(h) = h {
            v.push(h);
            assert(views(v@) =~= views(before).push(h@));
        }
        i = i + 1;
    }
    v
}

proof fn lemma_group_view(h: Heading)
    requires
        h is Group,
    ensures
        h@ == (HeadingM::Group { items: views(h->0@) }),
        forall|i: int| 0 <= i < h->0@.len() ==> h@->items[i] == (#[trigger] h->0@[i])@,
{
    assert(h@ is Group);
    assert(h@->items.len() == h->0@.len());
    assert forall|i: int| 0 <= i < h->0@.len() implies h@->items[i] == views(h->0@)[i] by {
        assert(h@->items[i] == h->0@[i]@);
    }
    assert(h@->items =~= views(h->0@));
}

impl Heading {
    /// The rank the heading ends at.
    pub fn get_end_level(&self) -> (r: u8)
        ensures
            r == self@.end_level(),
        decreases self,
    {
        match self {
            Heading::Header { level, .. } => *level,
            Heading::Group(headings) => {
                proof {
                    lemma_group_view(*self);
                }
                if headings.len() == 0 {
                    return 0;
                }
                proof {
                    assert(decreases_to!(*self => self->0));
                }
                headings[headings.len() - 1].get_end_level()
            },
        }
    }

    /// The rank the heading starts at.
    pub fn get_start_level(&self) -> (r: u8)
        ensures
            r == self@.start_level(),
        decreases self,
    {
        match self {
            Heading::Header { level, .. } => *level,
            Heading::Group(headings) => {
                proof {
                    lemma_group_view(*self);
                }
                if headings.len() == 0 {
                    return 0;
                }
                headings[0].get_start_level()
            },
        }
    }

    /// The title of the heading.
    pub fn to_text(&self) -> (r: String)
        ensures
            r@ == self@.text(),
        decreases self,
    {
        match self {
            Heading::Header { text, .. } => text.clone(),
            Heading::Group(headings) => {
                proof {
                    lemma_group_view(*self);
                }
                let ghost items = self@->items;
                let mut out = String::new();
                let mut i: usize = 0;
                while i < headings.len()
                    invariant
                        items == self@->items,
                        *self is Group,
                        self->0 == *headings,
                        items.len() == headings@.len(),
                        forall|j: int| 0 <= j < items.len() ==> items[j] == (#[trigger] headings@[j])@,
                        i <= headings@.len(),
                        out@ == joined(items, i as int),
                    decreases headings@.len() - i,
                {
                    proof {
                        vstd::std_specs::vec::axiom_vec_index_decreases(self->0, i as int);
                    }
                    let t = headings[i].to_text();
                    if i > 0 {
                        out.append(" \u{2014} ");
                    }
                    out.append(t.as_str());
                    proof {
                        if i == 0 {
                            assert(out@ =~= items[0].text());
                        } else {
                            assert(out@ =~= joined(items, i as int) + group_separator() + items[i as int].text());
                        }
                    }
                    i = i + 1;
                }
                out
            },
        }
    }
}

} // verus!
