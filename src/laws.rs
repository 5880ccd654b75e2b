use vstd::prelude::*;

use crate::dom::Node;
use crate::heading::{heading_of, joined, HeadingM};
use crate::outline::{
    has_level_at_least, lifts_top, outline_of, outlines, place, place_from, render, reversed,
    stacks, Entry, OutlineM,
};
use crate::outline_structure::{
    body_of, build_prefix, build_step, document_structure, empty_structure, first_body,
    heading_leaf, structure_of, StructureM,
};
use crate::sectioning_type::{is_sectioning_root, SectioningType};

verus! {

/// A heading never takes a heading of its own rank under it: where the top
/// of the stack is a heading of the same rank, the new heading is pushed
/// beside it with nothing nested, so headings of equal rank stay siblings.
pub proof fn law_equal_ranks_stay_siblings(st: Seq<Entry>, text: Seq<char>, r: u8)
    requires
        st.len() > 0,
        st.last().level == Some(r),
    ensures
        place(st, text, r) == st.push(
            Entry { level: Some(r), outline: OutlineM { text: Some(text), subs: Seq::empty() } },
        ),
{
    assert(!lifts_top(st, r));
    assert(reversed(Seq::<Entry>::empty()) =~= Seq::<Entry>::empty());
    assert(st + reversed(Seq::<Entry>::empty()) + seq![
        Entry { level: Some(r), outline: OutlineM { text: Some(text), subs: Seq::empty() } },
    ] =~= st.push(
        Entry { level: Some(r), outline: OutlineM { text: Some(text), subs: Seq::empty() } },
    ));
}

proof fn lemma_deeper_run(st: Seq<Entry>, text: Seq<char>, r: u8, j: int, under: Seq<OutlineM>)
    requires
        0 <= j <= st.len(),
        forall|i: int| j <= i < st.len() ==> (#[trigger] st[i]).level is Some && st[i].level->0 > r,
        j == 0 || (st[j - 1].level is Some && st[j - 1].level->0 <= r),
    ensures
        place_from(st, text, r, Seq::empty(), under) == st.subrange(0, j).push(
            Entry {
                level: Some(r),
                outline: OutlineM {
                    text: Some(text),
                    subs: under + reversed(outlines(st.subrange(j, st.len() as int))),
                },
            },
        ),
    decreases st.len(),
{
    let e = Seq::<Entry>::empty();
    if st.len() > j {
        let d = st.drop_last();
        assert(st.last() == st[st.len() - 1]);
        assert forall|i: int| j <= i < d.len() implies (#[trigger] d[i]).level is Some && d[i].level->0 > r by {
            assert(d[i] == st[i]);
        }
        if j > 0 {
            assert(d[j - 1] == st[j - 1]);
        }
        lemma_deeper_run(d, text, r, j, under.push(st.last().outline));
        assert(d.subrange(0, j) =~= st.subrange(0, j));
        assert(under.push(st.last().outline) + reversed(outlines(d.subrange(j, d.len() as int)))
            =~= under + reversed(outlines(st.subrange(j, st.len() as int))));
    } else {
        if j > 0 {
            assert(st.last() == st[j - 1]);
        }
        assert(!lifts_top(st, r));
        assert(reversed(e) =~= e);
        assert(st.subrange(0, j) =~= st);
        assert(reversed(outlines(st.subrange(j, st.len() as int))) =~= Seq::<OutlineM>::empty());
        assert(under + Seq::<OutlineM>::empty() =~= under);
        assert(st + reversed(e) + seq![
            Entry { level: Some(r), outline: OutlineM { text: Some(text), subs: under } },
        ] =~= st.push(Entry { level: Some(r), outline: OutlineM { text: Some(text), subs: under } }));
    }
}

/// The headings on the stack above the first heading of rank `r` or
/// shallower, all deeper than `r`, move under a heading of rank `r` that is
/// placed, in document order; everything below stays where it is.
pub proof fn law_deeper_headings_nest(st: Seq<Entry>, text: Seq<char>, r: u8, j: int)
    requires
        0 <= j <= st.len(),
        forall|i: int| j <= i < st.len() ==> (#[trigger] st[i]).level is Some && st[i].level->0 > r,
        j == 0 || (st[j - 1].level is Some && st[j - 1].level->0 <= r),
    ensures
        place(st, text, r) == st.subrange(0, j).push(
            Entry {
                level: Some(r),
                outline: OutlineM {
                    text: Some(text),
                    subs: reversed(outlines(st.subrange(j, st.len() as int))),
                },
            },
        ),
{
    lemma_deeper_run(st, text, r, j, Seq::empty());
    assert(Seq::<OutlineM>::empty() + reversed(outlines(st.subrange(j, st.len() as int)))
        =~= reversed(outlines(st.subrange(j, st.len() as int))));
}

/// The outline of one heading of a scope beyond its first: one node, whose
/// title is the heading's title (for a group, its headings' titles joined by
/// the separator), with nothing under it.
pub proof fn law_heading_is_one_node(h: HeadingM)
    ensures
        outline_of(heading_leaf(h)) == (OutlineM { text: Some(h.text()), subs: Seq::empty() }),
        h is Group ==> h.text() == joined(h->items, h->items.len() as int),
{
}

proof fn lemma_placed_on_top(
    st: Seq<Entry>,
    text: Seq<char>,
    r: u8,
    kept: Seq<Entry>,
    under: Seq<OutlineM>,
)
    ensures
        place_from(st, text, r, kept, under).len() > 0,
        place_from(st, text, r, kept, under).last().level == Some(r),
        place_from(st, text, r, kept, under).last().outline.text == Some(text),
    decreases st.len(),
{
    if lifts_top(st, r) {
        if st.last().level is None {
            lemma_placed_on_top(st.drop_last(), text, r, kept.push(st.last()), under);
        } else {
            lemma_placed_on_top(st.drop_last(), text, r, kept, under.push(st.last().outline));
        }
    }
}

/// A heading of a scope beyond its first, a group included, is placed as one
/// node at the top of the stack, titled with the heading's whole title and
/// ranked by the rank it starts at.
pub proof fn law_heading_is_placed_as_one_node(subs: Seq<StructureM>, k: int)
    requires
        0 < k <= subs.len(),
        subs[subs.len() - k].kind is Heading,
        subs[subs.len() - k].heading is Some,
    ensures
        stacks(subs, k).last().outline.text == Some(subs[subs.len() - k].heading->0.text()),
        stacks(subs, k).last().level == Some(subs[subs.len() - k].heading->0.start_level()),
{
    let h = subs[subs.len() - k].heading->0;
    lemma_placed_on_top(stacks(subs, k - 1), h.text(), h.start_level(), Seq::empty(), Seq::empty());
}

/// A sectioning root (a quotation, a figure, a dialog, a table cell, ...)
/// adds nothing to the outline around it: neither its headings nor its
/// sections are read.
pub proof fn law_sectioning_root_is_skipped(s: StructureM, find: bool, c: Node, pd: int, max: int)
    requires
        c is Element,
        is_sectioning_root(c->name@),
    ensures
        build_step(s, find, c, pd, max) == (s, find),
{
}

/// Rendering reads the outline alone: equal outlines give the same text.
pub proof fn law_render_is_deterministic(
    a: OutlineM,
    b: OutlineM,
    number: nat,
    indent: nat,
    started: bool,
)
    requires
        a == b,
    ensures
        render(a, number, indent, started) == render(b, number, indent, started),
{
}

proof fn lemma_nothing_at_depth_zero(kind: SectioningType, kids: Seq<Node>, k: int)
    ensures
        build_prefix(kind, kids, k, 0, 0).0 == empty_structure(kind),
    decreases k,
{
    if k > 0 && k <= kids.len() {
        lemma_nothing_at_depth_zero(kind, kids, k - 1);
        let prev = build_prefix(kind, kids, k - 1, 0, 0);
        assert(heading_of(kids[k - 1], 1, 0) is None);
        assert(build_step(prev.0, prev.1, kids[k - 1], 0, 0).0 == prev.0);
    }
}

proof fn lemma_no_body_below(kids: Seq<Node>, k: int)
    ensures
        first_body(kids, k, 1, 0) is None,
    decreases k,
{
    if k > 0 && k <= kids.len() {
        lemma_no_body_below(kids, k - 1);
        assert(body_of(kids[k - 1], 1, 0) is None);
    }
}

/// With a depth limit of zero, any document gives an untitled outline with
/// nothing in it.
pub proof fn law_depth_zero_is_empty(n: Node)
    ensures
        outline_of(document_structure(n, 0)) == (OutlineM { text: None, subs: Seq::empty() }),
{
    lemma_nothing_at_depth_zero(SectioningType::Body, n.kids(), n.kids().len() as int);
    lemma_nothing_at_depth_zero(SectioningType::Root, n.kids(), n.kids().len() as int);
    lemma_no_body_below(n.kids(), n.kids().len() as int);
    let s = document_structure(n, 0);
    assert(s.heading is None && s.subs.len() == 0);
    assert(!s.kind.is_content());
    assert(reversed(outlines(stacks(s.subs, 0))) =~= Seq::<OutlineM>::empty());
}

/// The rank a heading node of a scope starts at.
pub open spec fn leaf_level(s: StructureM) -> u8 {
    s.heading->0.start_level()
}

/// Every entry of `subs` is a heading node, and their ranks strictly increase.
pub open spec fn increasing_headings(subs: Seq<StructureM>) -> bool {
    &&& forall|i: int| 0 <= i < subs.len() ==> (#[trigger] subs[i]).kind is Heading && subs[i].heading is Some
    &&& forall|i: int| 0 <= i < subs.len() - 1 ==> leaf_level(#[trigger] subs[i]) < leaf_level(subs[i + 1])
}

/// The headings `subs[i..]`, each the one child of the one before.
pub open spec fn chain(subs: Seq<StructureM>, i: int) -> OutlineM
    decreases subs.len() - i,
{
    if i + 1 >= subs.len() {
        OutlineM { text: Some(subs[i].heading->0.text()), subs: Seq::empty() }
    } else {
        OutlineM { text: Some(subs[i].heading->0.text()), subs: seq![chain(subs, i + 1)] }
    }
}

proof fn lemma_increasing_stacks(subs: Seq<StructureM>, k: int)
    requires
        increasing_headings(subs),
        0 < k <= subs.len(),
    ensures
        stacks(subs, k) == seq![
            Entry { level: Some(leaf_level(subs[subs.len() - k])), outline: chain(subs, subs.len() - k) },
        ],
    decreases k,
{
    let n = subs.len() as int;
    let sub = subs[n - k];
    assert(sub.kind is Heading && sub.heading is Some);
    let r = leaf_level(sub);
    let t = sub.heading->0.text();
    let prev = stacks(subs, k - 1);
    let e = Seq::<Entry>::empty();
    assert(stacks(subs, k) == place(prev, t, r));
    assert(reversed(e) =~= e);
    if k == 1 {
        assert(prev == e);
        assert(chain(subs, n - 1) == OutlineM { text: Some(t), subs: Seq::empty() });
        assert(!lifts_top(prev, r));
        assert(e + reversed(e) + seq![
            Entry { level: Some(r), outline: OutlineM { text: Some(t), subs: Seq::empty() } },
        ] =~= seq![Entry { level: Some(r), outline: chain(subs, n - 1) }]);
    } else {
        lemma_increasing_stacks(subs, k - 1);
        assert(chain(subs, n - k) == OutlineM { text: Some(t), subs: seq![chain(subs, n - k + 1)] });
        assert(leaf_level(subs[n - k]) < leaf_level(subs[n - k + 1]));
        assert(lifts_top(prev, r));
        assert(prev.drop_last() =~= e);
        let u = Seq::<OutlineM>::empty().push(chain(subs, n - k + 1));
        assert(u =~= seq![chain(subs, n - k + 1)]);
        assert(!lifts_top(e, r));
        assert(place_from(e, t, r, e, u) == e + reversed(e) + seq![
            Entry { level: Some(r), outline: OutlineM { text: Some(t), subs: u } },
        ]);
        assert(e + reversed(e) + seq![
            Entry { level: Some(r), outline: OutlineM { text: Some(t), subs: u } },
        ] =~= seq![Entry { level: Some(r), outline: chain(subs, n - k) }]);
    }
}

/// Headings of strictly increasing rank in one scope (h1, h2, ... h6 in a
/// flat body) make one chain, each nested under the one before: with no
/// heading of its own the scope holds the chain; where its own heading ranks
/// above the first of them, that heading heads the chain.
pub proof fn law_increasing_ranks_make_one_chain(s: StructureM)
    requires
        !(s.kind is Heading),
        s.subs.len() > 0,
        increasing_headings(s.subs),
        s.heading is Some ==> s.heading->0.start_level() < leaf_level(s.subs[0]),
    ensures
        s.heading is None ==> outline_of(s) == (OutlineM { text: crate::outline::untitled(s.kind), subs: seq![chain(s.subs, 0)] }),
        s.heading is Some ==> outline_of(s) == (OutlineM {
            text: None,
            subs: seq![OutlineM { text: Some(s.heading->0.text()), subs: seq![chain(s.subs, 0)] }],
        }),
{
    let n = s.subs.len() as int;
    lemma_increasing_stacks(s.subs, n);
    let st = stacks(s.subs, n);
    let e = Seq::<Entry>::empty();
    assert(reversed(outlines(st)) =~= seq![chain(s.subs, 0)]);
    if s.heading is Some {
        let h = s.heading->0;
        let r = h.start_level();
        assert(st[0].level is Some && st[0].level->0 >= r);
        assert(has_level_at_least(st, r));
        assert(lifts_top(st, r));
        assert(st.drop_last() =~= e);
        assert(reversed(e) =~= e);
        let u = Seq::<OutlineM>::empty().push(chain(s.subs, 0));
        assert(u =~= seq![chain(s.subs, 0)]);
        assert(!lifts_top(e, r));
        let p = place(st, h.text(), r);
        assert(st.last() == st[0]);
        assert(Seq::<OutlineM>::empty().push(st.last().outline) == u);
        assert(p == place_from(e, h.text(), r, e, u));
        assert(p == e + reversed(e) + seq![
            Entry { level: Some(r), outline: OutlineM { text: Some(h.text()), subs: u } },
        ]);
        assert(reversed(outlines(p)) =~= seq![OutlineM { text: Some(h.text()), subs: seq![chain(s.subs, 0)] }]);
    }
}

/// Every entry of `subs` is a heading node of rank `l`.
pub open spec fn equal_headings(subs: Seq<StructureM>, l: u8) -> bool {
    forall|i: int|
        0 <= i < subs.len() ==> (#[trigger] subs[i]).kind is Heading && subs[i].heading is Some
            && leaf_level(subs[i]) == l
}

/// The outline of a heading node: its title, with nothing under it.
pub open spec fn leaf_outline(s: StructureM) -> OutlineM {
    OutlineM { text: Some(s.heading->0.text()), subs: Seq::empty() }
}

proof fn lemma_equal_stacks(subs: Seq<StructureM>, l: u8, k: int)
    requires
        equal_headings(subs, l),
        0 <= k <= subs.len(),
    ensures
        stacks(subs, k) == Seq::new(
            k as nat,
            |i: int| Entry { level: Some(l), outline: leaf_outline(subs[subs.len() - 1 - i]) },
        ),
    decreases k,
{
    let n = subs.len() as int;
    let want = |k: int|
        Seq::new(
            k as nat,
            |i: int| Entry { level: Some(l), outline: leaf_outline(subs[n - 1 - i]) },
        );
    if k == 0 {
        assert(stacks(subs, 0) =~= want(0));
    } else {
        lemma_equal_stacks(subs, l, k - 1);
        let prev = stacks(subs, k - 1);
        let sub = subs[n - k];
        assert(sub.kind is Heading && sub.heading is Some && leaf_level(sub) == l);
        let node = Entry { level: Some(l), outline: leaf_outline(sub) };
        assert(stacks(subs, k) == place(prev, sub.heading->0.text(), l));
        if k == 1 {
            let e = Seq::<Entry>::empty();
            assert(prev =~= e);
            assert(!lifts_top(prev, l));
            assert(reversed(e) =~= e);
            assert(e + reversed(e) + seq![node] =~= want(1));
        } else {
            assert(prev.last().level == Some(l));
            law_equal_ranks_stay_siblings(prev, sub.heading->0.text(), l);
            assert(prev.push(node) =~= want(k));
        }
    }
}

/// Headings of one rank in one scope stay siblings, in document order, each
/// with nothing under it; so does the scope's own heading where it has that
/// rank, first among them.
pub proof fn law_equal_ranks_make_siblings(s: StructureM, l: u8)
    requires
        !(s.kind is Heading),
        equal_headings(s.subs, l),
        s.heading is Some ==> s.heading->0.start_level() == l,
    ensures
        s.heading is None ==> outline_of(s) == (OutlineM {
            text: crate::outline::untitled(s.kind),
            subs: Seq::new(s.subs.len(), |i: int| leaf_outline(s.subs[i])),
        }),
        s.heading is Some && s.subs.len() > 0 ==> outline_of(s) == (OutlineM {
            text: None,
            subs: seq![OutlineM { text: Some(s.heading->0.text()), subs: Seq::empty() }] + Seq::new(
                s.subs.len(),
                |i: int| leaf_outline(s.subs[i]),
            ),
        }),
{
    let n = s.subs.len() as int;
    lemma_equal_stacks(s.subs, l, n);
    let st = stacks(s.subs, n);
    let leaves = Seq::new(s.subs.len(), |i: int| leaf_outline(s.subs[i]));
    assert(reversed(outlines(st)) =~= leaves);
    if s.heading is Some && n > 0 {
        let h = s.heading->0;
        assert(st[0].level == Some(l));
        assert(has_level_at_least(st, l));
        assert(st.last().level == Some(l));
        law_equal_ranks_stay_siblings(st, h.text(), l);
        let own = OutlineM { text: Some(h.text()), subs: Seq::empty() };
        assert(reversed(outlines(st.push(Entry { level: Some(l), outline: own }))) =~= seq![own]
            + leaves);
    }
}

} // verus!
